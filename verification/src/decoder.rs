//! The stateful EVT 3.0 decoder.
//!
//! The decoder walks a sequence of 16-bit words and keeps a cursor: the
//! current row, the base column and polarity of the running vector burst, and
//! a 64-bit clock rebuilt from 12-bit TIME_HIGH and TIME_LOW fragments. What it
//! does is stated here as a step function on [`DecoderState`], folded over the
//! words; the executable decoder is proved to compute that fold.
//!
//! Arithmetic on the cursor and the clock wraps at the width of the field, so
//! decoding is defined for every word sequence.

use vstd::prelude::*;
use vstd::string::StringExecFns;
use crate::parser;
use crate::parser::{spec_bit0, spec_bit11, spec_event_type, spec_low11, spec_low12, spec_low8,
    spec_parse_event_type, spec_trigger_id};
use crate::types::{CdEvent, RawEventType, SensorMetadata, TriggerEvent};

verus! {

/// Errors of decoding.
#[derive(Debug)]
pub enum DecodeError {
    /// The input could not be read. Holds the message of the failure. The
    /// library reads nothing itself and never gives this error: it is for
    /// those who read the input and hand it on.
    Io(String),
    /// The input is not an EVT 3.0 stream. The decoder itself never gives
    /// this error: words that it cannot read are skipped.
    InvalidFormat(String),
    /// The input ended where more was expected. The decoder itself never
    /// gives this error: the end of the input ends decoding.
    UnexpectedEof,
}

impl DecodeError {
    /// The text of this error.
    pub open spec fn spec_message(&self) -> Seq<char> {
        match self {
            DecodeError::Io(cause) => "IO error: "@ + cause@,
            DecodeError::InvalidFormat(what) => "Invalid file format: "@ + what@,
            DecodeError::UnexpectedEof => "Unexpected end of file"@,
        }
    }

    /// The text of this error.
    pub fn message(&self) -> (text: String)
        ensures
            text@ == self.spec_message(),
    {
        match self {
            DecodeError::Io(cause) => String::from_str("IO error: ").concat(cause.as_str()),
            DecodeError::InvalidFormat(what) => String::from_str("Invalid file format: ").concat(
                what.as_str(),
            ),
            DecodeError::UnexpectedEof => String::from_str("Unexpected end of file"),
        }
    }
}

/// The largest time base that one TIME_HIGH value can give: `0xFFF << 12`.
pub const MAX_TIMESTAMP_BASE: u64 = 16_773_120;

/// The span of the 24-bit clock: `1 << 24` microseconds.
pub const TIME_LOOP: u64 = 16_777_216;

/// How far the time base may step back without counting as a wraparound:
/// `10 << 12` microseconds.
pub const LOOP_THRESHOLD: u64 = 40_960;

/// The cursor and clock of a decoder.
pub struct DecoderState {
    /// High bits of the clock: the last TIME_HIGH value times 4096, plus one
    /// `TIME_LOOP` for each wraparound seen.
    pub time_base: u64,
    /// The last TIME_LOW value.
    pub time_low: u64,
    /// The timestamp given to the events emitted next.
    pub current_time: u64,
    /// Number of wraparounds of TIME_HIGH seen.
    pub n_time_high_loops: u64,
    /// False until the first TIME_HIGH word.
    pub first_time_base_set: bool,
    /// Row of the last ADDR_Y word.
    pub current_y: u16,
    /// Column at which the next vector word starts.
    pub current_base_x: u16,
    /// Polarity of the last VECT_BASE_X word.
    pub current_polarity: u8,
}

/// The state of a decoder that has seen no word.
pub open spec fn initial_state() -> DecoderState {
    DecoderState {
        time_base: 0,
        time_low: 0,
        current_time: 0,
        n_time_high_loops: 0,
        first_time_base_set: false,
        current_y: 0,
        current_base_x: 0,
        current_polarity: 0,
    }
}

/// An integer reduced to 16 bits.
pub open spec fn wrap16(n: int) -> u16 {
    (n % 0x1_0000) as u16
}

/// An integer reduced to 64 bits.
pub open spec fn wrap64(n: int) -> u64 {
    (n % 0x1_0000_0000_0000_0000) as u64
}

/// Whether bit `i` of a validity mask is set. Bit 0 is the least significant.
pub open spec fn bit_is_set(mask: u32, i: nat) -> bool {
    (mask >> (i as u32)) & 1 == 1
}

/// The number of set bits among the lowest `n` bits of a mask.
pub open spec fn popcount(mask: u32, n: nat) -> nat
    decreases n,
{
    if n == 0 {
        0
    } else {
        popcount(mask, (n - 1) as nat) + if bit_is_set(mask, (n - 1) as nat) {
            1nat
        } else {
            0nat
        }
    }
}

/// The event that a vector word emits for offset `i` of its mask.
pub open spec fn burst_event(s: DecoderState, i: nat) -> CdEvent {
    CdEvent {
        x: wrap16(s.current_base_x + i),
        y: s.current_y,
        polarity: s.current_polarity,
        timestamp: s.current_time,
    }
}

/// The events of a vector word over the lowest `n` bits of its mask: one for
/// each set bit, in order of increasing offset.
pub open spec fn burst(s: DecoderState, mask: u32, n: nat) -> Seq<CdEvent>
    decreases n,
{
    if n == 0 {
        Seq::empty()
    } else if bit_is_set(mask, (n - 1) as nat) {
        burst(s, mask, (n - 1) as nat).push(burst_event(s, (n - 1) as nat))
    } else {
        burst(s, mask, (n - 1) as nat)
    }
}

/// The time base that a TIME_HIGH value stands for before wraparound is
/// looked for: the value times 4096, plus `TIME_LOOP` for each loop counted.
pub open spec fn time_high_candidate(s: DecoderState, value: u16) -> u64 {
    wrap64(value * 4096 + wrap64(s.n_time_high_loops * TIME_LOOP))
}

/// Whether a TIME_HIGH value is taken as a wraparound: the candidate lies
/// behind the time base by nearly the whole span of TIME_HIGH.
pub open spec fn time_high_wraps(s: DecoderState, value: u16) -> bool {
    let candidate = time_high_candidate(s, value);
    s.time_base > candidate && s.time_base - candidate >= MAX_TIMESTAMP_BASE - LOOP_THRESHOLD
}

/// The state after a TIME_HIGH value, for a decoder that has seen one before.
pub open spec fn time_high_step(s: DecoderState, value: u16) -> DecoderState {
    let candidate = time_high_candidate(s, value);
    if time_high_wraps(s, value) {
        DecoderState {
            time_base: wrap64(candidate + TIME_LOOP),
            current_time: wrap64(candidate + TIME_LOOP),
            n_time_high_loops: wrap64(s.n_time_high_loops + 1),
            ..s
        }
    } else {
        DecoderState { time_base: candidate, current_time: candidate, ..s }
    }
}

/// The state after the first TIME_HIGH value of a stream.
pub open spec fn arm(s: DecoderState, value: u16) -> DecoderState {
    DecoderState {
        time_base: (value * 4096) as u64,
        current_time: (value * 4096) as u64,
        first_time_base_set: true,
        ..s
    }
}

/// The state after a vector word of `n` offsets.
pub open spec fn vector_step(s: DecoderState, n: nat) -> DecoderState {
    DecoderState { current_base_x: wrap16(s.current_base_x + n), ..s }
}

/// The state after one word.
pub open spec fn step(s: DecoderState, word: u16) -> DecoderState {
    if !s.first_time_base_set {
        if spec_event_type(word) == RawEventType::TimeHigh.spec_code() {
            arm(s, spec_low12(word))
        } else {
            s
        }
    } else {
        match spec_parse_event_type(word) {
            Some(RawEventType::AddrY) => DecoderState { current_y: spec_low11(word), ..s },
            Some(RawEventType::VectBaseX) => DecoderState {
                current_base_x: spec_low11(word),
                current_polarity: spec_bit11(word),
                ..s
            },
            Some(RawEventType::Vect12) => vector_step(s, 12),
            Some(RawEventType::Vect8) => vector_step(s, 8),
            Some(RawEventType::TimeLow) => DecoderState {
                time_low: spec_low12(word) as u64,
                current_time: wrap64(s.time_base + spec_low12(word)),
                ..s
            },
            Some(RawEventType::TimeHigh) => time_high_step(s, spec_low12(word)),
            _ => s,
        }
    }
}

/// The CD events that one word emits.
pub open spec fn cd_emitted(s: DecoderState, word: u16) -> Seq<CdEvent> {
    if !s.first_time_base_set {
        Seq::empty()
    } else {
        match spec_parse_event_type(word) {
            Some(RawEventType::AddrX) => seq![
                CdEvent {
                    x: spec_low11(word),
                    y: s.current_y,
                    polarity: spec_bit11(word),
                    timestamp: s.current_time,
                },
            ],
            Some(RawEventType::Vect12) => burst(s, spec_low12(word) as u32, 12),
            Some(RawEventType::Vect8) => burst(s, spec_low8(word) as u32, 8),
            _ => Seq::empty(),
        }
    }
}

/// The trigger events that one word emits.
pub open spec fn trigger_emitted(s: DecoderState, word: u16) -> Seq<TriggerEvent> {
    if !s.first_time_base_set {
        Seq::empty()
    } else {
        match spec_parse_event_type(word) {
            Some(RawEventType::ExtTrigger) => seq![
                TriggerEvent {
                    value: spec_bit0(word),
                    id: spec_trigger_id(word),
                    timestamp: s.current_time,
                },
            ],
            _ => Seq::empty(),
        }
    }
}

/// The state after a sequence of words, taken left to right.
pub open spec fn run(s: DecoderState, words: Seq<u16>) -> DecoderState
    decreases words.len(),
{
    if words.len() == 0 {
        s
    } else {
        step(run(s, words.drop_last()), words.last())
    }
}

/// The CD events that a sequence of words emits, in order.
pub open spec fn cd_output(s: DecoderState, words: Seq<u16>) -> Seq<CdEvent>
    decreases words.len(),
{
    if words.len() == 0 {
        Seq::empty()
    } else {
        cd_output(s, words.drop_last()) + cd_emitted(run(s, words.drop_last()), words.last())
    }
}

/// The trigger events that a sequence of words emits, in order.
pub open spec fn trigger_output(s: DecoderState, words: Seq<u16>) -> Seq<TriggerEvent>
    decreases words.len(),
{
    if words.len() == 0 {
        Seq::empty()
    } else {
        trigger_output(s, words.drop_last()) + trigger_emitted(
            run(s, words.drop_last()),
            words.last(),
        )
    }
}

/// Whether the lowest `n` bits of a mask are all set.
pub open spec fn full_mask(mask: u32, n: nat) -> bool {
    forall|i: nat| i < n ==> bit_is_set(mask, i)
}

/// Whether the loop count of a state leaves room for one more wraparound
/// within 64 bits.
pub open spec fn clock_in_range(s: DecoderState) -> bool {
    s.n_time_high_loops + 2 <= 0x100_0000_0000
}

/// The TIME_HIGH value that the time base of a state stands at.
pub open spec fn time_high_of(s: DecoderState) -> int {
    (s.time_base - s.n_time_high_loops * TIME_LOOP) / 4096
}

/// Whether the time base of a state is a TIME_HIGH value times 4096 in the
/// span of its loop count.
pub open spec fn time_base_shaped(s: DecoderState) -> bool {
    &&& 0 <= time_high_of(s) <= 0xFFF
    &&& s.time_base == time_high_of(s) * 4096 + s.n_time_high_loops * TIME_LOOP
}

/// A vector word emits as many events as its mask has set bits.
pub proof fn lemma_burst_len(s: DecoderState, mask: u32, n: nat)
    ensures
        burst(s, mask, n).len() == popcount(mask, n),
    decreases n,
{
    if n > 0 {
        lemma_burst_len(s, mask, (n - 1) as nat);
    }
}

/// A burst whose mask has its lowest `n` bits all set is the events of the
/// offsets 0 to `n - 1`, in that order.
pub proof fn lemma_full_burst(s: DecoderState, mask: u32, n: nat)
    requires
        full_mask(mask, n),
    ensures
        burst(s, mask, n) == Seq::new(n, |i: int| burst_event(s, i as nat)),
    decreases n,
{
    if n > 0 {
        lemma_full_burst(s, mask, (n - 1) as nat);
        assert(bit_is_set(mask, (n - 1) as nat));
    }
    assert(burst(s, mask, n) =~= Seq::new(n, |i: int| burst_event(s, i as nat)));
}

/// The mask 0xFFF has its lowest 12 bits set, the mask 0xFF its lowest 8.
pub proof fn lemma_full_masks()
    ensures
        full_mask(0xFFF, 12),
        full_mask(0xFF, 8),
{
    assert forall|i: nat| i < 12 implies bit_is_set(0xFFF, i) by {
        let k = i as u32;
        assert(k < 12 ==> (0xFFFu32 >> k) & 1 == 1) by (bit_vector);
    }
    assert forall|i: nat| i < 8 implies bit_is_set(0xFF, i) by {
        let k = i as u32;
        assert(k < 8 ==> (0xFFu32 >> k) & 1 == 1) by (bit_vector);
    }
}

/// What a TIME_HIGH value does to the clock of a state whose time base stands
/// at the TIME_HIGH value `last`.
///
/// If the new value lies behind `last` by 4085 or more, the 12-bit field has
/// wrapped: the loop count goes up by one and the time base becomes the new
/// value, times 4096, in the next span of `TIME_LOOP`. Otherwise the loop
/// count stays and the time base becomes the new value in the same span. The
/// current time is the new time base in both cases.
pub proof fn lemma_time_high_step(s: DecoderState, last: u16, value: u16)
    requires
        clock_in_range(s),
        last <= 0xFFF,
        value <= 0xFFF,
        s.time_base == last * 4096 + s.n_time_high_loops * TIME_LOOP,
    ensures
        last - value >= 4085 ==> {
            &&& time_high_step(s, value).n_time_high_loops == s.n_time_high_loops + 1
            &&& time_high_step(s, value).time_base == value * 4096 + (s.n_time_high_loops + 1)
                * TIME_LOOP
        },
        last - value < 4085 ==> {
            &&& time_high_step(s, value).n_time_high_loops == s.n_time_high_loops
            &&& time_high_step(s, value).time_base == value * 4096 + s.n_time_high_loops
                * TIME_LOOP
        },
        time_high_step(s, value).current_time == time_high_step(s, value).time_base,
        last <= value || last - value >= 4085 ==> time_high_step(s, value).time_base
            >= s.time_base,
        (last < value || last - value >= 4085) && s.current_time <= s.time_base + 0xFFF
            ==> time_high_step(s, value).current_time > s.current_time,
{
    let n = s.n_time_high_loops;
    assert(n * TIME_LOOP <= 0xFFFF_FFFF_FE00_0000 && (n + 1) * TIME_LOOP == n * TIME_LOOP
        + TIME_LOOP) by (nonlinear_arith)
        requires
            n + 2 <= 0x100_0000_0000,
            TIME_LOOP == 16_777_216,
    ;
    assert(wrap64(n * TIME_LOOP) == n * TIME_LOOP);
    assert(time_high_candidate(s, value) == value * 4096 + n * TIME_LOOP);
}

/// Stateful EVT 3.0 decoder.
#[derive(Debug)]
pub struct Evt3Decoder {
    /// High bits of the clock.
    pub time_base: u64,
    /// The last TIME_LOW value.
    pub time_low: u64,
    /// The timestamp given to the events emitted next.
    pub current_time: u64,
    /// Number of wraparounds of TIME_HIGH seen.
    pub n_time_high_loops: u64,
    /// False until the first TIME_HIGH word.
    pub first_time_base_set: bool,
    /// Row of the last ADDR_Y word.
    pub current_y: u16,
    /// Column at which the next vector word starts.
    pub current_base_x: u16,
    /// Polarity of the last VECT_BASE_X word.
    pub current_polarity: u8,
    /// Sensor geometry. Decoding never reads it.
    pub metadata: SensorMetadata,
}

impl View for Evt3Decoder {
    type V = DecoderState;

    open spec fn view(&self) -> DecoderState {
        DecoderState {
            time_base: self.time_base,
            time_low: self.time_low,
            current_time: self.current_time,
            n_time_high_loops: self.n_time_high_loops,
            first_time_base_set: self.first_time_base_set,
            current_y: self.current_y,
            current_base_x: self.current_base_x,
            current_polarity: self.current_polarity,
        }
    }
}

impl Default for Evt3Decoder {
    fn default() -> (d: Self)
        ensures
            d@ == initial_state(),
            d.metadata == (SensorMetadata { width: 1280, height: 720 }),
    {
        Evt3Decoder::new()
    }
}

impl Evt3Decoder {
    /// Creates a decoder in the initial state, with the default geometry.
    pub fn new() -> (d: Self)
        ensures
            d@ == initial_state(),
            d.metadata == (SensorMetadata { width: 1280, height: 720 }),
    {
        Evt3Decoder {
            time_base: 0,
            time_low: 0,
            current_time: 0,
            n_time_high_loops: 0,
            first_time_base_set: false,
            current_y: 0,
            current_base_x: 0,
            current_polarity: 0,
            metadata: SensorMetadata { width: 1280, height: 720 },
        }
    }

    /// Puts the cursor and the clock back to the initial state. The geometry
    /// stays.
    pub fn reset(&mut self)
        ensures
            final(self)@ == initial_state(),
            final(self).metadata == old(self).metadata,
    {
        self.time_base = 0;
        self.time_low = 0;
        self.current_time = 0;
        self.n_time_high_loops = 0;
        self.first_time_base_set = false;
        self.current_y = 0;
        self.current_base_x = 0;
        self.current_polarity = 0;
    }

    /// Takes a TIME_HIGH word, looking for a wraparound of its 12-bit value.
    ///
    /// The candidate for the time base is the value times 4096 in the span of
    /// the loops counted. If it lies behind the time base by nearly the whole
    /// span of TIME_HIGH, the value has wrapped: one more loop is counted and
    /// the candidate moves on by `TIME_LOOP`. The current time becomes the
    /// new time base. So a value of 0 after a value of 0xFFF counts a loop and
    /// puts the time base at the start of the next span.
    #[inline]
    pub fn process_time_high(&mut self, word: u16)
        ensures
            final(self)@ == time_high_step(old(self)@, spec_low12(word)),
            final(self).metadata == old(self).metadata,
            final(self).current_time == final(self).time_base,
            clock_in_range(old(self)@) && time_base_shaped(old(self)@) ==> ({
                let wraps = time_high_of(old(self)@) - spec_low12(word) >= 4085;
                &&& final(self).n_time_high_loops == old(self).n_time_high_loops + if wraps {
                    1int
                } else {
                    0int
                }
                &&& final(self).time_base == spec_low12(word) * 4096
                    + final(self).n_time_high_loops * TIME_LOOP
            }),
            clock_in_range(old(self)@) && old(self).time_base == 0xFFF * 4096
                + old(self).n_time_high_loops * TIME_LOOP && spec_low12(word) == 0 ==> ({
                &&& final(self).n_time_high_loops == old(self).n_time_high_loops + 1
                &&& final(self).time_base == (old(self).n_time_high_loops + 1) * TIME_LOOP
                &&& final(self).time_base == old(self).time_base + 4096
            }),
    {
        let time_val = parser::time_get_value(word);
        assert((time_val as u64) << 12 == time_val * 4096) by (bit_vector);
        let mut new_time_base = ((time_val as u64) << 12).wrapping_add(
            self.n_time_high_loops.wrapping_mul(TIME_LOOP),
        );

        if self.time_base > new_time_base && (self.time_base - new_time_base) >= (
        MAX_TIMESTAMP_BASE - LOOP_THRESHOLD) {
            new_time_base = new_time_base.wrapping_add(TIME_LOOP);
            self.n_time_high_loops = self.n_time_high_loops.wrapping_add(1);
        }
        self.time_base = new_time_base;
        self.current_time = self.time_base;
        proof {
            let before = old(self)@;
            if clock_in_range(before) {
                if time_base_shaped(before) {
                    lemma_time_high_step(before, time_high_of(before) as u16, time_val);
                }
                if before.time_base == 0xFFF * 4096 + before.n_time_high_loops * TIME_LOOP {
                    lemma_time_high_step(before, 0xFFF, time_val);
                    assert((before.n_time_high_loops + 1) * TIME_LOOP == before.n_time_high_loops
                        * TIME_LOOP + TIME_LOOP) by (nonlinear_arith)
                        requires
                            TIME_LOOP == 16_777_216,
                    ;
                }
            }
        }
    }

    /// Takes a vector word: emits one CD event for each set bit among the
    /// lowest `count` bits of `valid`, lowest offset first, then moves the
    /// base column on by `count`.
    ///
    /// So as many events are emitted as these bits hold set bits; a mask of 0
    /// emits nothing and still moves the base column; and a mask with all
    /// these bits set emits one event for each offset, which are consecutive
    /// columns from the base column on where they stay within 16 bits. Bits
    /// of `valid` above the lowest `count` are not read.
    #[inline]
    pub fn process_vector_events(
        &mut self,
        valid: u32,
        count: u16,
        cd_events: &mut Vec<CdEvent>,
    )
        requires
            count <= 32,
        ensures
            final(self)@ == vector_step(old(self)@, count as nat),
            final(self).metadata == old(self).metadata,
            final(cd_events)@ == old(cd_events)@ + burst(old(self)@, valid, count as nat),
            final(cd_events)@.len() == old(cd_events)@.len() + popcount(valid, count as nat),
            old(self).current_base_x + count <= u16::MAX ==> final(self).current_base_x
                == old(self).current_base_x + count,
            full_mask(valid, count as nat) || (count == 12 && valid == 0xFFF) || (count == 8
                && valid == 0xFF) ==> final(cd_events)@ == old(cd_events)@ + Seq::new(
                count as nat,
                |i: int| burst_event(old(self)@, i as nat),
            ),
    {
        let mut i: u16 = 0;
        while i < count
            invariant
                i <= count <= 32,
                *self == *old(self),
                cd_events@ == old(cd_events)@ + burst(old(self)@, valid, i as nat),
            decreases count - i,
        {
            let shifted = valid >> (i as u32);
            assert((shifted & 0x1 != 0) == (shifted & 1 == 1)) by (bit_vector);
            assert(burst(old(self)@, valid, (i + 1) as nat) == if bit_is_set(valid, i as nat) {
                burst(old(self)@, valid, i as nat).push(burst_event(old(self)@, i as nat))
            } else {
                burst(old(self)@, valid, i as nat)
            });
            if shifted & 0x1 != 0 {
                cd_events.push(
                    CdEvent::new(
                        self.current_base_x.wrapping_add(i),
                        self.current_y,
                        self.current_polarity,
                        self.current_time,
                    ),
                );
            }
            i += 1;
        }
        self.current_base_x = self.current_base_x.wrapping_add(count);
        proof {
            lemma_burst_len(old(self)@, valid, count as nat);
            lemma_full_masks();
            if full_mask(valid, count as nat) {
                lemma_full_burst(old(self)@, valid, count as nat);
            }
        }
    }

    /// Decodes a buffer of words, appending the CD and trigger events that it
    /// holds to the two sinks.
    ///
    /// Until the first TIME_HIGH word has been seen, every word is dropped.
    /// Words with a reserved type code are skipped.
    pub fn decode_buffer(
        &mut self,
        words: &[u16],
        cd_events: &mut Vec<CdEvent>,
        trigger_events: &mut Vec<TriggerEvent>,
    )
        ensures
            final(self)@ == run(old(self)@, words@),
            final(self).metadata == old(self).metadata,
            final(cd_events)@ == old(cd_events)@ + cd_output(old(self)@, words@),
            final(trigger_events)@ == old(trigger_events)@ + trigger_output(old(self)@, words@),
    {
        let n = words.len();
        let mut i: usize = 0;

        // Skip until the first TIME_HIGH if none has been seen.
        while i < n && !self.first_time_base_set
            invariant
                i <= n == words@.len(),
                self@ == run(old(self)@, words@.take(i as int)),
                self.metadata == old(self).metadata,
                cd_events@ == old(cd_events)@ + cd_output(old(self)@, words@.take(i as int)),
                trigger_events@ == old(trigger_events)@ + trigger_output(
                    old(self)@,
                    words@.take(i as int),
                ),
            decreases n - i,
        {
            let word = words[i];
            proof {
                lemma_take_next(words@, i as int);
            }
            let event_type = parser::get_event_type(word);
            if event_type == RawEventType::TimeHigh.code() {
                let time_val = parser::time_get_value(word);
                assert((time_val as u64) << 12 == time_val * 4096) by (bit_vector);
                self.time_base = (time_val as u64) << 12;
                self.current_time = self.time_base;
                self.first_time_base_set = true;
            }
            i += 1;
        }

        // Process the remaining words.
        while i < n
            invariant
                i <= n == words@.len(),
                i < n ==> self.first_time_base_set,
                self@ == run(old(self)@, words@.take(i as int)),
                self.metadata == old(self).metadata,
                cd_events@ == old(cd_events)@ + cd_output(old(self)@, words@.take(i as int)),
                trigger_events@ == old(trigger_events)@ + trigger_output(
                    old(self)@,
                    words@.take(i as int),
                ),
            decreases n - i,
        {
            let word = words[i];
            proof {
                lemma_take_next(words@, i as int);
            }
            let event_type = parser::get_event_type(word);

            match RawEventType::from_u8(event_type) {
                Some(RawEventType::AddrX) => {
                    let x = parser::addr_x_get_x(word);
                    let pol = parser::addr_x_get_polarity(word);
                    cd_events.push(CdEvent::new(x, self.current_y, pol, self.current_time));
                },
                Some(RawEventType::Vect12) => {
                    let valid = parser::vect_12_get_valid(word);
                    self.process_vector_events(valid as u32, 12, cd_events);
                },
                Some(RawEventType::Vect8) => {
                    let valid = parser::vect_8_get_valid(word);
                    self.process_vector_events(valid as u32, 8, cd_events);
                },
                Some(RawEventType::AddrY) => {
                    self.current_y = parser::addr_y_get_y(word);
                },
                Some(RawEventType::VectBaseX) => {
                    self.current_base_x = parser::vect_base_x_get_x(word);
                    self.current_polarity = parser::vect_base_x_get_polarity(word);
                },
                Some(RawEventType::TimeHigh) => {
                    self.process_time_high(word);
                },
                Some(RawEventType::TimeLow) => {
                    self.time_low = parser::time_get_value(word) as u64;
                    self.current_time = self.time_base.wrapping_add(self.time_low);
                },
                Some(RawEventType::ExtTrigger) => {
                    let value = parser::ext_trigger_get_value(word);
                    let id = parser::ext_trigger_get_id(word);
                    trigger_events.push(TriggerEvent::new(value, id, self.current_time));
                },
                Some(RawEventType::Continued4) | Some(RawEventType::Others) | Some(
                    RawEventType::Continued12,
                ) => {
                    // Auxiliary words: they carry nothing that CD or trigger
                    // events are rebuilt from.
                },
                None => {
                    // Reserved type code.
                },
            }
            i += 1;
        }
        assert(words@.take(n as int) == words@);
    }
}

/// Taking one more word of a sequence appends that word to what was taken.
proof fn lemma_take_next(words: Seq<u16>, i: int)
    requires
        0 <= i < words.len(),
    ensures
        words.take(i + 1).drop_last() == words.take(i),
        words.take(i + 1).last() == words[i],
        words.take(i + 1).len() == i + 1,
{
    assert(words.take(i + 1).drop_last() =~= words.take(i));
}

} // verus!
