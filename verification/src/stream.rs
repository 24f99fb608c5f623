//! What holds of decoding over whole word sequences.
//!
//! Each statement here is proved from the step function of the decoder. They
//! say how the output depends on where a stream is cut, what a word of each
//! type contributes, and when the rebuilt clock moves forward.

use vstd::prelude::*;
use crate::decoder::{burst, burst_event, cd_emitted, cd_output, clock_in_range, initial_state,
    lemma_burst_len, lemma_full_burst, lemma_full_masks, lemma_time_high_step, popcount, run,
    step, time_base_shaped, time_high_candidate, time_high_of, trigger_emitted, trigger_output,
    DecoderState, Evt3Decoder, TIME_LOOP};
use crate::parser::{spec_event_type, spec_low12, spec_low8, spec_parse_event_type};
use crate::types::{CdEvent, RawEventType, TriggerEvent};

verus! {

/// An empty word sequence emits nothing and leaves the state as it was.
pub proof fn lemma_empty_input(s: DecoderState)
    ensures
        run(s, Seq::<u16>::empty()) == s,
        cd_output(s, Seq::<u16>::empty()) == Seq::<CdEvent>::empty(),
        trigger_output(s, Seq::<u16>::empty()) == Seq::<TriggerEvent>::empty(),
{
}

/// A single word gives the step of that word.
pub proof fn lemma_single_word(s: DecoderState, word: u16)
    ensures
        run(s, seq![word]) == step(s, word),
        cd_output(s, seq![word]) == cd_emitted(s, word),
        trigger_output(s, seq![word]) == trigger_emitted(s, word),
{
    let one = seq![word];
    assert(one.drop_last() =~= Seq::<u16>::empty());
    assert(one.last() == word);
    assert(run(s, one.drop_last()) == s);
    assert(cd_output(s, one.drop_last()) =~= Seq::<CdEvent>::empty());
    assert(trigger_output(s, one.drop_last()) =~= Seq::<TriggerEvent>::empty());
    assert(cd_output(s, one) =~= cd_emitted(s, word));
    assert(trigger_output(s, one) =~= trigger_emitted(s, word));
}

/// Decoding does not depend on where the buffer is cut: a sequence decoded in
/// one piece gives the state and the events of its two parts decoded one
/// after the other.
pub proof fn lemma_chunking(s: DecoderState, head: Seq<u16>, tail: Seq<u16>)
    ensures
        run(s, head + tail) == run(run(s, head), tail),
        cd_output(s, head + tail) == cd_output(s, head) + cd_output(run(s, head), tail),
        trigger_output(s, head + tail) == trigger_output(s, head) + trigger_output(
            run(s, head),
            tail,
        ),
    decreases tail.len(),
{
    if tail.len() == 0 {
        assert(head + tail =~= head);
        assert(cd_output(s, head) + Seq::<CdEvent>::empty() =~= cd_output(s, head));
        assert(trigger_output(s, head) + Seq::<TriggerEvent>::empty() =~= trigger_output(
            s,
            head,
        ));
    } else {
        let whole = head + tail;
        assert(whole.drop_last() =~= head + tail.drop_last());
        assert(whole.last() == tail.last());
        lemma_chunking(s, head, tail.drop_last());
        let mid = run(s, head);
        let before = run(mid, tail.drop_last());
        assert(cd_output(s, whole) =~= cd_output(s, head) + (cd_output(mid, tail.drop_last())
            + cd_emitted(before, tail.last())));
        assert(trigger_output(s, whole) =~= trigger_output(s, head) + (trigger_output(
            mid,
            tail.drop_last(),
        ) + trigger_emitted(before, tail.last())));
    }
}

/// A decoder that was reset decodes a word sequence as a new decoder does,
/// whatever it decoded before and whatever geometry it holds: both start from
/// the initial state, and the output is a function of the starting state and
/// the words alone.
pub proof fn lemma_replay_after_reset(fresh: Evt3Decoder, reset: Evt3Decoder, words: Seq<u16>)
    requires
        fresh@ == initial_state(),
        reset@ == initial_state(),
    ensures
        run(reset@, words) == run(fresh@, words),
        cd_output(reset@, words) == cd_output(fresh@, words),
        trigger_output(reset@, words) == trigger_output(fresh@, words),
{
}

/// How many CD events one word emits: a VECT_12 word as many as its 12-bit
/// mask has set bits, a VECT_8 word as many as its 8-bit mask has, an ADDR_X
/// word one, every other word none; and none at all before the first
/// TIME_HIGH.
pub proof fn lemma_cd_emitted_count(s: DecoderState, word: u16)
    ensures
        !s.first_time_base_set ==> cd_emitted(s, word).len() == 0,
        s.first_time_base_set ==> cd_emitted(s, word).len() == match spec_parse_event_type(word) {
            Some(RawEventType::Vect12) => popcount(spec_low12(word) as u32, 12),
            Some(RawEventType::Vect8) => popcount(spec_low8(word) as u32, 8),
            Some(RawEventType::AddrX) => 1,
            _ => 0,
        },
{
    lemma_burst_len(s, spec_low12(word) as u32, 12);
    lemma_burst_len(s, spec_low8(word) as u32, 8);
}

/// How many trigger events one word emits: an EXT_TRIGGER word one, once a
/// TIME_HIGH has been seen; every other word none.
pub proof fn lemma_trigger_emitted_count(s: DecoderState, word: u16)
    ensures
        trigger_emitted(s, word).len() == if s.first_time_base_set && spec_parse_event_type(word)
            == Some(RawEventType::ExtTrigger) {
            1nat
        } else {
            0nat
        },
{
}

/// A vector word moves the base column on by its width, 12 or 8, as long as
/// the column stays within 16 bits.
pub proof fn lemma_vector_advances_base(s: DecoderState, word: u16)
    requires
        s.first_time_base_set,
    ensures
        spec_parse_event_type(word) == Some(RawEventType::Vect12) && s.current_base_x + 12
            <= u16::MAX ==> step(s, word).current_base_x == s.current_base_x + 12,
        spec_parse_event_type(word) == Some(RawEventType::Vect8) && s.current_base_x + 8
            <= u16::MAX ==> step(s, word).current_base_x == s.current_base_x + 8,
{
}

/// A VECT_12 word whose mask is 0xFFF emits twelve events, one for each
/// offset from 0 to 11 in that order; where the columns stay within 16 bits
/// they are twelve consecutive columns that start at the base column.
pub proof fn lemma_full_vect12(s: DecoderState, word: u16)
    requires
        s.first_time_base_set,
        spec_parse_event_type(word) == Some(RawEventType::Vect12),
        spec_low12(word) == 0xFFF,
    ensures
        cd_emitted(s, word) == Seq::new(12, |i: int| burst_event(s, i as nat)),
        s.current_base_x + 11 <= u16::MAX ==> forall|i: int|
            0 <= i < 12 ==> (#[trigger] cd_emitted(s, word)[i]).x == s.current_base_x + i,
{
    lemma_full_masks();
    lemma_full_burst(s, 0xFFF, 12);
}

/// As long as no TIME_HIGH word has been seen, nothing is emitted and the
/// state stays as it was.
pub proof fn lemma_no_time_high_no_events(s: DecoderState, words: Seq<u16>)
    requires
        !s.first_time_base_set,
        forall|i: int|
            0 <= i < words.len() ==> spec_event_type(#[trigger] words[i])
                != RawEventType::TimeHigh.spec_code(),
    ensures
        run(s, words) == s,
        cd_output(s, words) == Seq::<CdEvent>::empty(),
        trigger_output(s, words) == Seq::<TriggerEvent>::empty(),
    decreases words.len(),
{
    if words.len() > 0 {
        let init = words.drop_last();
        assert forall|i: int| 0 <= i < init.len() implies spec_event_type(#[trigger] init[i])
            != RawEventType::TimeHigh.spec_code() by {
            assert(init[i] == words[i]);
        }
        lemma_no_time_high_no_events(s, init);
        assert(words.last() == words[words.len() - 1]);
        assert(cd_output(s, words) =~= Seq::<CdEvent>::empty());
        assert(trigger_output(s, words) =~= Seq::<TriggerEvent>::empty());
    }
}

/// Whether the clock of a state has the shape that decoding gives it: the
/// time base is a TIME_HIGH value times 4096 in the span of the loop count,
/// the TIME_LOW value has 12 bits, the current time is the time base alone or
/// with the TIME_LOW value, and no loop is counted before the first
/// TIME_HIGH.
pub open spec fn clock_shaped(s: DecoderState) -> bool {
    &&& time_base_shaped(s)
    &&& s.time_low <= 0xFFF
    &&& (s.current_time == s.time_base || s.current_time == s.time_base + s.time_low)
    &&& (!s.first_time_base_set ==> s.n_time_high_loops == 0)
}

/// What a TIME_HIGH word does to the clock of a decoder whose time base
/// stands at the TIME_HIGH value `last`.
///
/// If the new value lies behind `last` by 4085 or more, the 12-bit field has
/// wrapped: the loop count goes up by one and the time base becomes the new
/// value, times 4096, in the next span of `TIME_LOOP`. Otherwise the loop
/// count stays and the time base becomes the new value in the same span. The
/// current time is the new time base in both cases.
pub proof fn lemma_time_high_clock(s: DecoderState, last: u16, word: u16)
    requires
        s.first_time_base_set,
        clock_in_range(s),
        last <= 0xFFF,
        s.time_base == last * 4096 + s.n_time_high_loops * TIME_LOOP,
        spec_parse_event_type(word) == Some(RawEventType::TimeHigh),
    ensures
        last - spec_low12(word) >= 4085 ==> {
            &&& step(s, word).n_time_high_loops == s.n_time_high_loops + 1
            &&& step(s, word).time_base == spec_low12(word) * 4096 + (s.n_time_high_loops + 1)
                * TIME_LOOP
        },
        last - spec_low12(word) < 4085 ==> {
            &&& step(s, word).n_time_high_loops == s.n_time_high_loops
            &&& step(s, word).time_base == spec_low12(word) * 4096 + s.n_time_high_loops
                * TIME_LOOP
        },
        step(s, word).current_time == step(s, word).time_base,
        last <= spec_low12(word) || last - spec_low12(word) >= 4085 ==> step(s, word).time_base
            >= s.time_base,
        (last < spec_low12(word) || last - spec_low12(word) >= 4085) && s.current_time
            <= s.time_base + 0xFFF ==> step(s, word).current_time > s.current_time,
{
    assert(word & 0x0FFF <= 0xFFF) by (bit_vector);
    lemma_time_high_step(s, last, spec_low12(word));
}

/// What a TIME_LOW word does to the clock: the current time becomes the time
/// base plus the new value. It does not step back where the value is at least
/// the TIME_LOW value before, or where no TIME_LOW word has come since the
/// last TIME_HIGH word.
pub proof fn lemma_time_low_clock(s: DecoderState, word: u16)
    requires
        s.first_time_base_set,
        clock_shaped(s),
        clock_in_range(s),
        spec_parse_event_type(word) == Some(RawEventType::TimeLow),
    ensures
        step(s, word).time_low == spec_low12(word),
        step(s, word).time_base == s.time_base,
        step(s, word).current_time == s.time_base + spec_low12(word),
        spec_low12(word) >= s.time_low || s.current_time == s.time_base ==> step(
            s,
            word,
        ).current_time >= s.current_time,
{
    assert(word & 0x0FFF <= 0xFFF) by (bit_vector);
    let n = s.n_time_high_loops;
    assert(n * TIME_LOOP <= 0xFFFF_FFFF_FE00_0000) by (nonlinear_arith)
        requires
            n + 2 <= 0x100_0000_0000,
            TIME_LOOP == 16_777_216,
    ;
}

/// A TIME_HIGH word of value 0 that follows one of value 0xFFF counts one
/// more loop and puts the time base at the start of the next span.
pub proof fn lemma_time_high_wraps_to_zero(s: DecoderState, word: u16)
    requires
        s.first_time_base_set,
        clock_in_range(s),
        s.time_base == 0xFFF * 4096 + s.n_time_high_loops * TIME_LOOP,
        spec_parse_event_type(word) == Some(RawEventType::TimeHigh),
        spec_low12(word) == 0,
    ensures
        step(s, word).n_time_high_loops == s.n_time_high_loops + 1,
        step(s, word).time_base == (s.n_time_high_loops + 1) * TIME_LOOP,
        step(s, word).time_base == s.time_base + 4096,
        step(s, word).time_base == time_high_candidate(s, 0) + TIME_LOOP,
        step(s, word).current_time == step(s, word).time_base,
{
    lemma_time_high_clock(s, 0xFFF, word);
    let n = s.n_time_high_loops;
    assert((n + 1) * TIME_LOOP == n * TIME_LOOP + TIME_LOOP && n * TIME_LOOP
        <= 0xFFFF_FFFF_FE00_0000) by (nonlinear_arith)
        requires
            n + 2 <= 0x100_0000_0000,
            TIME_LOOP == 16_777_216,
    ;
}

/// The clock of a new decoder has the shape, with no loop counted.
pub proof fn lemma_initial_clock()
    ensures
        clock_shaped(initial_state()),
        clock_in_range(initial_state()),
{
}

/// One word keeps the shape of the clock, and counts at most one loop more.
pub proof fn lemma_step_keeps_clock(s: DecoderState, word: u16)
    requires
        clock_shaped(s),
        clock_in_range(s),
    ensures
        clock_shaped(step(s, word)),
        s.n_time_high_loops <= step(s, word).n_time_high_loops <= s.n_time_high_loops + 1,
{
    let value = spec_low12(word);
    assert(word & 0x0FFF <= 0xFFF) by (bit_vector);
    let n = s.n_time_high_loops;
    assert(n * TIME_LOOP <= 0xFFFF_FFFF_FE00_0000 && (n + 1) * TIME_LOOP == n * TIME_LOOP
        + TIME_LOOP) by (nonlinear_arith)
        requires
            n + 2 <= 0x100_0000_0000,
            TIME_LOOP == 16_777_216,
    ;
    if !s.first_time_base_set {
        if spec_event_type(word) == RawEventType::TimeHigh.spec_code() {
            assert(time_high_of(step(s, word)) == value);
        }
    } else if spec_parse_event_type(word) == Some(RawEventType::TimeHigh) {
        lemma_time_high_clock(s, time_high_of(s) as u16, word);
        let after = step(s, word);
        assert(after.time_base == value * 4096 + after.n_time_high_loops * TIME_LOOP);
        assert(time_high_of(after) == value);
    }
}

/// A word sequence keeps the shape of the clock, and counts at most one loop
/// for each word, as long as the loop count stays within range.
pub proof fn lemma_run_keeps_clock(s: DecoderState, words: Seq<u16>)
    requires
        clock_shaped(s),
        s.n_time_high_loops + words.len() + 1 <= 0x100_0000_0000,
    ensures
        clock_shaped(run(s, words)),
        s.n_time_high_loops <= run(s, words).n_time_high_loops <= s.n_time_high_loops
            + words.len(),
    decreases words.len(),
{
    if words.len() > 0 {
        lemma_run_keeps_clock(s, words.drop_last());
        lemma_step_keeps_clock(run(s, words.drop_last()), words.last());
    }
}

/// Every CD event and every trigger event that a word emits carries the
/// current time of the state in which the word arrived, and a CD event also
/// its row.
pub proof fn lemma_emitted_carry_current_time(s: DecoderState, word: u16)
    ensures
        forall|i: int|
            0 <= i < cd_emitted(s, word).len() ==> {
                &&& (#[trigger] cd_emitted(s, word)[i]).timestamp == s.current_time
                &&& cd_emitted(s, word)[i].y == s.current_y
            },
        forall|i: int|
            0 <= i < trigger_emitted(s, word).len() ==> (#[trigger] trigger_emitted(
                s,
                word,
            )[i]).timestamp == s.current_time,
{
    lemma_burst_carries_state(s, spec_low12(word) as u32, 12);
    lemma_burst_carries_state(s, spec_low8(word) as u32, 8);
}

/// Every event of a burst carries the row, the polarity and the current time
/// of the state.
proof fn lemma_burst_carries_state(s: DecoderState, mask: u32, n: nat)
    ensures
        forall|i: int|
            0 <= i < burst(s, mask, n).len() ==> {
                &&& (#[trigger] burst(s, mask, n)[i]).timestamp == s.current_time
                &&& burst(s, mask, n)[i].y == s.current_y
                &&& burst(s, mask, n)[i].polarity == s.current_polarity
            },
    decreases n,
{
    if n > 0 {
        lemma_burst_carries_state(s, mask, (n - 1) as nat);
        let shorter = burst(s, mask, (n - 1) as nat);
        assert forall|i: int| 0 <= i < burst(s, mask, n).len() implies {
            &&& (#[trigger] burst(s, mask, n)[i]).timestamp == s.current_time
            &&& burst(s, mask, n)[i].y == s.current_y
            &&& burst(s, mask, n)[i].polarity == s.current_polarity
        } by {
            if i < shorter.len() {
                assert(burst(s, mask, n)[i] == shorter[i]);
            }
        }
    }
}

/// Whether the clock never steps back while a word sequence is decoded: the
/// current time after each word is at least the current time before it.
pub open spec fn clock_ordered(s: DecoderState, words: Seq<u16>) -> bool {
    forall|k: int|
        0 <= k < words.len() ==> run(s, #[trigger] words.take(k)).current_time <= run(
            s,
            words.take(k + 1),
        ).current_time
}

/// The timestamps of a sequence of CD events.
pub open spec fn cd_times(events: Seq<CdEvent>) -> Seq<u64> {
    events.map_values(|e: CdEvent| e.timestamp)
}

/// The timestamps of a sequence of trigger events.
pub open spec fn trigger_times(events: Seq<TriggerEvent>) -> Seq<u64> {
    events.map_values(|e: TriggerEvent| e.timestamp)
}

/// Whether a sequence of timestamps never steps back.
pub open spec fn in_time_order(times: Seq<u64>) -> bool {
    forall|i: int, j: int| 0 <= i <= j < times.len() ==> times[i] <= times[j]
}

/// Whether every timestamp of a sequence lies between two times.
pub open spec fn times_between(times: Seq<u64>, low: u64, high: u64) -> bool {
    forall|i: int| 0 <= i < times.len() ==> low <= #[trigger] times[i] <= high
}

/// Timestamps in order stay so when timestamps of one later time follow.
proof fn lemma_order_extends(before: Seq<u64>, added: Seq<u64>, low: u64, mid: u64, high: u64)
    requires
        in_time_order(before),
        times_between(before, low, mid),
        times_between(added, mid, mid),
        low <= mid <= high,
    ensures
        in_time_order(before + added),
        times_between(before + added, low, high),
{
    let all = before + added;
    assert forall|i: int| 0 <= i < all.len() implies low <= #[trigger] all[i] <= high by {
        if i < before.len() {
            assert(all[i] == before[i]);
        } else {
            assert(all[i] == added[i - before.len()]);
        }
    }
    assert forall|i: int, j: int| 0 <= i <= j < all.len() implies all[i] <= all[j] by {
        if i < before.len() {
            assert(all[i] == before[i]);
        } else {
            assert(all[i] == added[i - before.len()]);
        }
        if j < before.len() {
            assert(all[j] == before[j]);
        } else {
            assert(all[j] == added[j - before.len()]);
        }
    }
}

/// Where the clock never steps back, the timestamps of the events emitted
/// never step back either: the CD events are in order of time, so are the
/// trigger events, and all of them lie between the current time at the start
/// and the current time at the end.
pub proof fn lemma_timestamps_ordered(s: DecoderState, words: Seq<u16>)
    requires
        clock_ordered(s, words),
    ensures
        s.current_time <= run(s, words).current_time,
        in_time_order(cd_times(cd_output(s, words))),
        times_between(cd_times(cd_output(s, words)), s.current_time, run(s, words).current_time),
        in_time_order(trigger_times(trigger_output(s, words))),
        times_between(
            trigger_times(trigger_output(s, words)),
            s.current_time,
            run(s, words).current_time,
        ),
    decreases words.len(),
{
    if words.len() > 0 {
        let init = words.drop_last();
        let last = words.last();
        let n = init.len() as int;
        assert(init =~= words.take(n));
        assert(words.take(n + 1) =~= words);
        assert forall|k: int| 0 <= k < init.len() implies run(
            s,
            #[trigger] init.take(k),
        ).current_time <= run(s, init.take(k + 1)).current_time by {
            assert(init.take(k) =~= words.take(k));
            assert(init.take(k + 1) =~= words.take(k + 1));
        }
        lemma_timestamps_ordered(s, init);
        let before = run(s, init);
        assert(run(s, words.take(n)).current_time <= run(s, words.take(n + 1)).current_time);
        lemma_emitted_carry_current_time(before, last);
        assert(cd_times(cd_output(s, words)) =~= cd_times(cd_output(s, init)) + cd_times(
            cd_emitted(before, last),
        ));
        assert(trigger_times(trigger_output(s, words)) =~= trigger_times(trigger_output(s, init))
            + trigger_times(trigger_emitted(before, last)));
        lemma_order_extends(
            cd_times(cd_output(s, init)),
            cd_times(cd_emitted(before, last)),
            s.current_time,
            before.current_time,
            run(s, words).current_time,
        );
        lemma_order_extends(
            trigger_times(trigger_output(s, init)),
            trigger_times(trigger_emitted(before, last)),
            s.current_time,
            before.current_time,
            run(s, words).current_time,
        );
    }
}

} // verus!
