//! Decoding of a whole EVT 3.0 file, given as its bytes.
//!
//! A file is an optional text preamble followed by the stream: 16-bit words,
//! least significant byte first. The stream is decoded in chunks of a fixed
//! size; a single byte left over at the end is dropped.

use vstd::prelude::*;
use vstd::slice::slice_subrange;
use crate::decoder::{cd_output, run, trigger_output, DecodeError, Evt3Decoder};
use crate::header::scan_header;
use crate::stream::lemma_chunking;
use crate::types::{CdEvent, DecodeResult, TriggerEvent};

verus! {

/// The number of words that are decoded at a time.
pub const READ_BUFFER_SIZE: usize = 1_000_000;

/// The word that two bytes stand for, the less significant byte first.
pub open spec fn le_word(low: u8, high: u8) -> u16 {
    (low + 256 * high) as u16
}

/// The words that a byte sequence stands for. A last byte without a partner
/// stands for nothing.
pub open spec fn le_words(bytes: Seq<u8>) -> Seq<u16> {
    Seq::new((bytes.len() / 2) as nat, |i: int| le_word(bytes[2 * i], bytes[2 * i + 1]))
}

/// The words of a byte sequence of even length, followed by more bytes, are
/// the words of the first part followed by the words of the rest.
pub proof fn lemma_le_words_concat(head: Seq<u8>, tail: Seq<u8>)
    requires
        head.len() % 2 == 0,
    ensures
        le_words(head + tail) == le_words(head) + le_words(tail),
{
    let whole = head + tail;
    let joined = le_words(head) + le_words(tail);
    assert(le_words(whole).len() == joined.len());
    assert forall|i: int| 0 <= i < joined.len() implies le_words(whole)[i] == joined[i] by {
        if i < le_words(head).len() {
            assert(whole[2 * i] == head[2 * i]);
            assert(whole[2 * i + 1] == head[2 * i + 1]);
        } else {
            let k = i - le_words(head).len();
            assert(whole[2 * i] == tail[2 * k]);
            assert(whole[2 * i + 1] == tail[2 * k + 1]);
        }
    }
    assert(le_words(whole) =~= joined);
}

/// A single byte that follows whole words adds no word.
pub proof fn lemma_odd_byte_dropped(bytes: Seq<u8>, last: u8)
    requires
        bytes.len() % 2 == 0,
    ensures
        le_words(bytes.push(last)) == le_words(bytes),
{
    assert(le_words(bytes.push(last)) =~= le_words(bytes));
}

/// Reads bytes as 16-bit words, least significant byte first. A last byte
/// without a partner is dropped.
pub fn words_from_le_bytes(bytes: &[u8]) -> (words: Vec<u16>)
    ensures
        words@ == le_words(bytes@),
{
    let count = bytes.len() / 2;
    let mut words: Vec<u16> = Vec::with_capacity(count);
    let mut i: usize = 0;
    while i < count
        invariant
            i <= count == bytes@.len() / 2,
            bytes@.len() <= usize::MAX,
            words@ == le_words(bytes@).take(i as int),
        decreases count - i,
    {
        let low = bytes[2 * i];
        let high = bytes[2 * i + 1];
        let word: u16 = low as u16 + 256 * (high as u16);
        words.push(word);
        assert(words@ =~= le_words(bytes@).take(i + 1));
        i += 1;
    }
    assert(le_words(bytes@).take(count as int) =~= le_words(bytes@));
    words
}

impl Evt3Decoder {
    /// Decodes the contents of an EVT 3.0 file: reads the preamble, if there
    /// is one, then decodes the words that follow it.
    ///
    /// The decoder is not reset first: decoding goes on from the state that it
    /// is in. This never fails: what cannot be read, in the preamble or among
    /// the words, is passed over.
    pub fn decode_file(&mut self, contents: &[u8]) -> (r: Result<DecodeResult, DecodeError>)
        ensures
            r is Ok,
            final(self).metadata == scan_header(old(self).metadata, contents@, 0).metadata,
            ({
                let scan = scan_header(old(self).metadata, contents@, 0);
                let words = le_words(contents@.subrange(scan.consumed, contents@.len() as int));
                &&& final(self)@ == run(old(self)@, words)
                &&& r->Ok_0.cd_events@ == cd_output(old(self)@, words)
                &&& r->Ok_0.trigger_events@ == trigger_output(old(self)@, words)
                &&& r->Ok_0.metadata == scan.metadata
            }),
    {
        let start = match self.parse_header(contents) {
            Ok(consumed) => consumed,
            Err(e) => {
                return Err(e);
            },
        };
        let mut cd_events: Vec<CdEvent> = Vec::new();
        let mut trigger_events: Vec<TriggerEvent> = Vec::new();
        let total = contents.len();
        let mut pos = start;
        assert(le_words(contents@.subrange(start as int, pos as int)) =~= Seq::<u16>::empty());
        while pos < total
            invariant
                start <= pos <= total == contents@.len(),
                pos < total ==> (pos - start) % 2 == 0,
                self.metadata == scan_header(old(self).metadata, contents@, 0).metadata,
                self@ == run(old(self)@, le_words(contents@.subrange(start as int, pos as int))),
                cd_events@ == cd_output(
                    old(self)@,
                    le_words(contents@.subrange(start as int, pos as int)),
                ),
                trigger_events@ == trigger_output(
                    old(self)@,
                    le_words(contents@.subrange(start as int, pos as int)),
                ),
            decreases total - pos,
        {
            let end = if total - pos > 2 * READ_BUFFER_SIZE {
                pos + 2 * READ_BUFFER_SIZE
            } else {
                total
            };
            let chunk = slice_subrange(contents, pos, end);
            let words = words_from_le_bytes(chunk);
            proof {
                let done = contents@.subrange(start as int, pos as int);
                assert(done + chunk@ =~= contents@.subrange(start as int, end as int));
                lemma_le_words_concat(done, chunk@);
                lemma_chunking(old(self)@, le_words(done), words@);
            }
            self.decode_buffer(words.as_slice(), &mut cd_events, &mut trigger_events);
            pos = end;
        }
        Ok(DecodeResult { cd_events, trigger_events, metadata: self.metadata })
    }
}

} // verus!
