//! The streaming decoder: symbols in, bytes out, one byte per pull.

use crate::alphabet::{crockford_index, is_symbol, symbol_value};
use crate::encoder::EncoderState;
use crate::error::CrockfordDecodeError;
use crate::regroup::{
    bit_of, decode_error_at, decoded, decoded_bytes, decoded_len, decoded_stream, first_invalid,
    lemma_div5, lemma_div8, lemma_first_invalid, lemma_first_invalid_is, lemma_quintet_bit, octet,
    quintet_or_zero, saturated, values_of,
};
use crate::source::{first_of, same_protocol};
use vstd::prelude::*;
use vstd::std_specs::iter::IteratorSpec;

verus! {

/// The transition table: the byte that a step in `phase` joins from the
/// values `c1`, `c2` and `c3` of up to three symbols in a row. In phases 1 to
/// 4 `c1` is the carried value; phases 0, 2 and 4 read no `c3`.
pub open spec fn joined(phase: nat, c1: u8, c2: u8, c3: u8) -> u8 {
    if phase == 0 {
        c1 << 3 | (c2 & 0b00011100) >> 2
    } else if phase == 1 {
        (c1 & 0b00011) << 6 | c2 << 1 | (c3 & 0b10000) >> 4
    } else if phase == 2 {
        (c1 & 0b01111) << 4 | (c2 & 0b11110) >> 1
    } else if phase == 3 {
        (c1 & 0b00001) << 7 | c2 << 2 | (c3 & 0b11000) >> 3
    } else {
        (c1 & 0b00111) << 5 | c2
    }
}

/// How many symbols a step in `phase` pulls.
pub open spec fn pulls(phase: nat) -> nat {
    if phase == 2 || phase == 4 {
        1
    } else {
        2
    }
}

proof fn lemma_joined_bits(c1: u8, c2: u8, c3: u8)
    by (bit_vector)
    requires
        c1 < 32,
        c2 < 32,
        c3 < 32,
    ensures
        c1 << 3 | (c2 & 0b00011100) >> 2 == 128 * bit_of(c1, 4) + 64 * bit_of(c1, 3) + 32 * bit_of(
            c1,
            2,
        ) + 16 * bit_of(c1, 1) + 8 * bit_of(c1, 0) + 4 * bit_of(c2, 4) + 2 * bit_of(c2, 3)
            + bit_of(c2, 2),
        (c1 & 0b00011) << 6 | c2 << 1 | (c3 & 0b10000) >> 4 == 128 * bit_of(c1, 1) + 64 * bit_of(
            c1,
            0,
        ) + 32 * bit_of(c2, 4) + 16 * bit_of(c2, 3) + 8 * bit_of(c2, 2) + 4 * bit_of(c2, 1) + 2
            * bit_of(c2, 0) + bit_of(c3, 4),
        (c1 & 0b01111) << 4 | (c2 & 0b11110) >> 1 == 128 * bit_of(c1, 3) + 64 * bit_of(c1, 2) + 32
            * bit_of(c1, 1) + 16 * bit_of(c1, 0) + 8 * bit_of(c2, 4) + 4 * bit_of(c2, 3) + 2
            * bit_of(c2, 2) + bit_of(c2, 1),
        (c1 & 0b00001) << 7 | c2 << 2 | (c3 & 0b11000) >> 3 == 128 * bit_of(c1, 0) + 64 * bit_of(
            c2,
            4,
        ) + 32 * bit_of(c2, 3) + 16 * bit_of(c2, 2) + 8 * bit_of(c2, 1) + 4 * bit_of(c2, 0) + 2
            * bit_of(c3, 4) + bit_of(c3, 3),
        (c1 & 0b00111) << 5 | c2 == 128 * bit_of(c1, 2) + 64 * bit_of(c1, 1) + 32 * bit_of(c1, 0)
            + 16 * bit_of(c2, 4) + 8 * bit_of(c2, 3) + 4 * bit_of(c2, 2) + 2 * bit_of(c2, 1)
            + bit_of(c2, 0),
{
}

/// The table joins byte `i` from the value that holds its first bit and the
/// one or two values after it, whatever else the input holds.
pub proof fn lemma_joined_is_octet(values: Seq<u8>, i: int, c1: u8, c2: u8, c3: u8)
    requires
        0 <= i,
        c1 < 32,
        c2 < 32,
        c3 < 32,
        c1 == quintet_or_zero(values, 8 * i / 5),
        c2 == quintet_or_zero(values, 8 * i / 5 + 1),
        i % 5 == 1 || i % 5 == 3 ==> c3 == quintet_or_zero(values, 8 * i / 5 + 2),
    ensures
        joined((i % 5) as nat, c1, c2, c3) == octet(values, i),
{
    let cycle = i / 5;
    let phase = i % 5;
    let first = 8 * cycle;
    let bit = 8 * i;
    assert(i == 5 * cycle + phase);
    lemma_joined_bits(c1, c2, c3);
    if phase == 0 {
        assert(bit / 5 == first);
        lemma_quintet_bit(values, bit, first, 4);
        lemma_quintet_bit(values, bit + 1, first, 3);
        lemma_quintet_bit(values, bit + 2, first, 2);
        lemma_quintet_bit(values, bit + 3, first, 1);
        lemma_quintet_bit(values, bit + 4, first, 0);
        lemma_quintet_bit(values, bit + 5, first + 1, 4);
        lemma_quintet_bit(values, bit + 6, first + 1, 3);
        lemma_quintet_bit(values, bit + 7, first + 1, 2);
    } else if phase == 1 {
        assert(bit / 5 == first + 1);
        lemma_quintet_bit(values, bit, first + 1, 1);
        lemma_quintet_bit(values, bit + 1, first + 1, 0);
        lemma_quintet_bit(values, bit + 2, first + 2, 4);
        lemma_quintet_bit(values, bit + 3, first + 2, 3);
        lemma_quintet_bit(values, bit + 4, first + 2, 2);
        lemma_quintet_bit(values, bit + 5, first + 2, 1);
        lemma_quintet_bit(values, bit + 6, first + 2, 0);
        lemma_quintet_bit(values, bit + 7, first + 3, 4);
    } else if phase == 2 {
        assert(bit / 5 == first + 3);
        lemma_quintet_bit(values, bit, first + 3, 3);
        lemma_quintet_bit(values, bit + 1, first + 3, 2);
        lemma_quintet_bit(values, bit + 2, first + 3, 1);
        lemma_quintet_bit(values, bit + 3, first + 3, 0);
        lemma_quintet_bit(values, bit + 4, first + 4, 4);
        lemma_quintet_bit(values, bit + 5, first + 4, 3);
        lemma_quintet_bit(values, bit + 6, first + 4, 2);
        lemma_quintet_bit(values, bit + 7, first + 4, 1);
    } else if phase == 3 {
        assert(bit / 5 == first + 4);
        lemma_quintet_bit(values, bit, first + 4, 0);
        lemma_quintet_bit(values, bit + 1, first + 5, 4);
        lemma_quintet_bit(values, bit + 2, first + 5, 3);
        lemma_quintet_bit(values, bit + 3, first + 5, 2);
        lemma_quintet_bit(values, bit + 4, first + 5, 1);
        lemma_quintet_bit(values, bit + 5, first + 5, 0);
        lemma_quintet_bit(values, bit + 6, first + 6, 4);
        lemma_quintet_bit(values, bit + 7, first + 6, 3);
    } else {
        assert(bit / 5 == first + 6);
        lemma_quintet_bit(values, bit, first + 6, 2);
        lemma_quintet_bit(values, bit + 1, first + 6, 1);
        lemma_quintet_bit(values, bit + 2, first + 6, 0);
        lemma_quintet_bit(values, bit + 3, first + 7, 4);
        lemma_quintet_bit(values, bit + 4, first + 7, 3);
        lemma_quintet_bit(values, bit + 5, first + 7, 2);
        lemma_quintet_bit(values, bit + 6, first + 7, 1);
        lemma_quintet_bit(values, bit + 7, first + 7, 0);
    }
}

/// What a decoder remembers between two pulls.
#[verifier::ext_equal]
pub struct DecoderState {
    /// The position in the cycle of five bytes.
    pub phase: nat,
    /// The value that still holds bits of the next byte.
    pub carry: Option<u8>,
    /// Whether the source has run dry or held a character that is no symbol.
    pub finished: bool,
    /// The characters pulled from the source so far.
    pub consumed: Seq<char>,
    /// How many bytes were handed out so far.
    pub emitted: nat,
    /// How many characters were pulled so far, as far as a `usize` counts.
    pub position: usize,
}

impl DecoderState {
    /// The state of a decoder that has not pulled anything yet.
    pub open spec fn fresh() -> DecoderState {
        DecoderState {
            phase: 0,
            carry: None,
            finished: false,
            consumed: Seq::empty(),
            emitted: 0,
            position: 0,
        }
    }

    /// The phase follows the bytes handed out and the position the characters
    /// pulled. Until the decoder is finished, every character pulled was a
    /// symbol, exactly the symbols that the bytes so far needed were pulled,
    /// and the carry is empty at a cycle's start and otherwise holds the value
    /// of the last symbol. A finished decoder has handed out every byte of
    /// the characters it pulled.
    pub open spec fn wf(self) -> bool {
        &&& self.phase == self.emitted % 5
        &&& self.position == saturated(self.consumed.len() as int)
        &&& !self.finished ==> {
            &&& self.consumed.len() == (8 * self.emitted + 4) / 5
            &&& first_invalid(self.consumed) == self.consumed.len()
            &&& self.phase == 0 ==> self.carry is None
            &&& self.phase != 0 ==> self.carry == symbol_value(self.consumed.last())
        }
        &&& self.finished ==> self.emitted == decoded_bytes(self.consumed)
    }

    /// The value in the carry cell, zero where it is empty.
    pub open spec fn carried(self) -> u8 {
        match self.carry {
            Some(value) => value,
            None => 0,
        }
    }

    /// The state after one pull that the source answers with `symbol`. A
    /// finished decoder does not pull.
    pub open spec fn pull(self, symbol: Option<char>) -> DecoderState {
        if self.finished {
            self
        } else {
            match symbol {
                Some(c) => DecoderState {
                    finished: !is_symbol(c),
                    consumed: self.consumed.push(c),
                    position: if self.position < usize::MAX {
                        (self.position + 1) as usize
                    } else {
                        self.position
                    },
                    ..self
                },
                None => DecoderState { finished: true, ..self },
            }
        }
    }

    /// What one pull hands to the step: the value of the symbol, zero where
    /// the source is dry or the decoder finished, or the error for a
    /// character that is no symbol.
    pub open spec fn pulled(self, symbol: Option<char>) -> Result<u8, CrockfordDecodeError> {
        if self.finished {
            Ok(0u8)
        } else {
            match symbol {
                Some(c) => match symbol_value(c) {
                    Some(value) => Ok(value),
                    None => Err(
                        CrockfordDecodeError { character: c, slice_position: self.position },
                    ),
                },
                None => Ok(0u8),
            }
        }
    }

    /// What the next step hands out, where `pending` are the characters still
    /// to come: `None` from a finished decoder, and at a cycle's start when
    /// the source is dry.
    pub open spec fn output(self, pending: Seq<char>) -> Option<Result<u8, CrockfordDecodeError>> {
        let first = first_of(pending);
        let second = first_of(pending.skip(1));
        if self.finished || self.phase == 0 && first is None {
            None
        } else {
            match self.pulled(first) {
                Err(error) => Some(Err(error)),
                Ok(a) => if pulls(self.phase) == 1 {
                    Some(Ok(joined(self.phase, self.carried(), a, 0)))
                } else {
                    match self.pull(first).pulled(second) {
                        Err(error) => Some(Err(error)),
                        Ok(b) => if self.phase == 0 {
                            Some(Ok(joined(0, a, b, 0)))
                        } else {
                            Some(Ok(joined(self.phase, self.carried(), a, b)))
                        },
                    }
                },
            }
        }
    }

    /// The state after the next step, where `pending` are the characters
    /// still to come.
    pub open spec fn step(self, pending: Seq<char>) -> DecoderState {
        let first = first_of(pending);
        let second = first_of(pending.skip(1));
        let one = self.pull(first);
        let two = one.pull(second);
        if self.finished {
            self
        } else if self.phase == 0 && first is None {
            one
        } else {
            match self.pulled(first) {
                Err(_) => one,
                Ok(a) => if pulls(self.phase) == 1 {
                    DecoderState {
                        phase: (self.phase + 1) % 5,
                        carry: if self.phase == 2 {
                            Some(a)
                        } else {
                            None
                        },
                        emitted: self.emitted + 1,
                        ..one
                    }
                } else {
                    match one.pulled(second) {
                        Err(_) => two,
                        Ok(b) => DecoderState {
                            phase: (self.phase + 1) % 5,
                            carry: Some(b),
                            emitted: self.emitted + 1,
                            ..two
                        },
                    }
                },
            }
        }
    }
}

/// How many symbols the first `count` bytes need, and where the symbols of
/// byte `count` stand, by the phase of `count`.
proof fn lemma_cycle_counts(count: int)
    requires
        0 <= count,
    ensures
        ({
            let cycle = count / 5;
            let phase = count % 5;
            let symbols = (8 * count + 4) / 5;
            &&& count == 5 * cycle + phase
            &&& symbols == 8 * cycle + if phase == 0 {
                0int
            } else if phase == 1 {
                2
            } else if phase == 2 {
                4
            } else if phase == 3 {
                5
            } else {
                7
            }
            &&& 8 * count / 5 == if phase == 0 {
                symbols
            } else {
                symbols - 1
            }
            &&& (8 * count + 7) / 5 + 1 == symbols + pulls(phase as nat)
        }),
{
    let cycle = count / 5;
    let phase = count % 5;
    if phase == 0 {
        lemma_div5(8 * count + 4, 8 * cycle, 4);
        lemma_div5(8 * count, 8 * cycle, 0);
        lemma_div5(8 * count + 7, 8 * cycle + 1, 2);
    } else if phase == 1 {
        lemma_div5(8 * count + 4, 8 * cycle + 2, 2);
        lemma_div5(8 * count, 8 * cycle + 1, 3);
        lemma_div5(8 * count + 7, 8 * cycle + 3, 0);
    } else if phase == 2 {
        lemma_div5(8 * count + 4, 8 * cycle + 4, 0);
        lemma_div5(8 * count, 8 * cycle + 3, 1);
        lemma_div5(8 * count + 7, 8 * cycle + 4, 3);
    } else if phase == 3 {
        lemma_div5(8 * count + 4, 8 * cycle + 5, 3);
        lemma_div5(8 * count, 8 * cycle + 4, 4);
        lemma_div5(8 * count + 7, 8 * cycle + 6, 1);
    } else {
        lemma_div5(8 * count + 4, 8 * cycle + 7, 1);
        lemma_div5(8 * count, 8 * cycle + 6, 2);
        lemma_div5(8 * count + 7, 8 * cycle + 7, 4);
    }
}

/// Where every character that byte `at` needs is a symbol, and its first
/// symbol is there, the decoder's item `at` is that byte.
proof fn lemma_stream_byte(input: Seq<char>, at: int, needed: int)
    requires
        0 <= at,
        needed == (8 * at + 7) / 5 + 1,
        8 * at < 5 * input.len(),
        forall|j: int| 0 <= j < needed && j < input.len() ==> is_symbol(#[trigger] input[j]),
    ensures
        at < decoded_stream(input).len(),
        decoded_stream(input)[at] == Ok::<u8, CrockfordDecodeError>(
            octet(values_of(input), at) as u8,
        ),
{
    let stop = first_invalid(input) as int;
    lemma_first_invalid(input);
    if stop < input.len() {
        assert(stop >= needed);
        assert(5 * stop > 8 * at + 7);
    }
}

/// Where the first character that is no symbol stands among those that byte
/// `at` needs, the decoder's item `at` is the error for it, and the last one.
proof fn lemma_stream_error(input: Seq<char>, at: int, stop: int)
    requires
        0 <= at,
        0 <= stop < input.len(),
        8 * at <= 5 * stop <= 8 * at + 7,
        forall|j: int| 0 <= j < stop ==> is_symbol(#[trigger] input[j]),
        !is_symbol(input[stop]),
    ensures
        decoded_stream(input).len() == at + 1,
        decoded_stream(input)[at] == Err::<u8, CrockfordDecodeError>(
            decode_error_at(input, stop),
        ),
{
    lemma_first_invalid_is(input, stop);
    lemma_div8(5 * stop, at, 5 * stop - 8 * at);
}

/// Where every character is a symbol, the decoder hands out as many items as
/// the symbols decode to.
proof fn lemma_stream_end(input: Seq<char>)
    requires
        forall|j: int| 0 <= j < input.len() ==> is_symbol(#[trigger] input[j]),
    ensures
        decoded_stream(input).len() == decoded_len(input.len()),
{
    lemma_first_invalid_is(input, input.len() as int);
}

/// A step keeps the state well formed.
pub proof fn lemma_step_wf(state: DecoderState, pending: Seq<char>)
    requires
        state.wf(),
    ensures
        state.step(pending).wf(),
{
    let count = state.emitted as int;
    let pulled = state.consumed.len() as int;
    let after = state.step(pending);
    let length = after.consumed.len() as int;
    lemma_cycle_counts(count);
    lemma_cycle_counts(count + 1);
    if !state.finished {
        lemma_first_invalid(state.consumed);
        assert forall|j: int| 0 <= j < pulled implies is_symbol(#[trigger] after.consumed[j]) by {
            assert(after.consumed[j] == state.consumed[j]);
        }
    }
    if !after.finished {
        lemma_first_invalid_is(after.consumed, length);
        if state.phase == 4 {
            lemma_div5(count + 1, count / 5 + 1, 0);
        } else {
            lemma_div5(count + 1, count / 5, state.phase as int + 1);
        }
    } else if !state.finished {
        if state.output(pending) is None {
            assert(after.consumed =~= state.consumed);
            lemma_div8(5 * pulled + 7, count, 7);
        } else if state.output(pending) matches Some(Err(_)) {
            let stop = length - 1;
            assert(!is_symbol(after.consumed[stop]));
            lemma_first_invalid_is(after.consumed, stop);
            assert(8 * count <= 5 * stop <= 8 * count + 7);
            lemma_div8(5 * stop, count, 5 * stop - 8 * count);
        } else {
            lemma_first_invalid_is(after.consumed, length);
            assert(8 * count < 5 * length <= 8 * count + 7);
            lemma_div8(5 * length + 7, count + 1, 5 * length + 7 - 8 * (count + 1));
        }
    }
}

/// A step hands out the next item of what the whole input decodes to: the
/// characters pulled so far, then those still to come.
pub proof fn lemma_step_decodes(state: DecoderState, pending: Seq<char>)
    requires
        state.wf(),
        !state.finished,
    ensures
        ({
            let input = state.consumed + pending;
            let after = state.step(pending);
            let taken = after.consumed.len() - state.consumed.len();
            &&& 0 <= taken <= pending.len()
            &&& taken <= 2
            &&& after.consumed + pending.skip(taken) == input
            &&& state.output(pending) == if state.emitted < decoded_stream(input).len() {
                Some(decoded_stream(input)[state.emitted as int])
            } else {
                None
            }
        }),
{
    let input = state.consumed + pending;
    let values = values_of(input);
    let count = state.emitted as int;
    let pulled = state.consumed.len() as int;
    let first = first_of(pending);
    let second = first_of(pending.skip(1));
    let after = state.step(pending);
    let taken = after.consumed.len() - state.consumed.len();
    let needed = pulled + pulls(state.phase);
    lemma_cycle_counts(count);
    lemma_first_invalid(state.consumed);
    assert forall|j: int| 0 <= j < pulled implies is_symbol(#[trigger] input[j]) by {
        assert(input[j] == state.consumed[j]);
    }
    assert(after.consumed + pending.skip(taken) =~= input);
    if state.phase != 0 {
        assert(input[pulled - 1] == state.consumed.last());
        assert(values[pulled - 1] == state.carried());
    }
    let c1 = if state.phase == 0 {
        quintet_or_zero(values, pulled)
    } else {
        state.carried()
    };
    let c2 = if state.phase == 0 {
        quintet_or_zero(values, pulled + 1)
    } else {
        quintet_or_zero(values, pulled)
    };
    let c3 = if state.phase == 0 {
        0u8
    } else {
        quintet_or_zero(values, pulled + 1)
    };
    assert(c1 < 32 && c2 < 32 && c3 < 32);
    if first is None {
        assert(input =~= state.consumed);
        if state.phase == 0 {
            lemma_stream_end(input);
            lemma_div8(5 * pulled + 7, count, 7);
        } else {
            lemma_stream_byte(input, count, needed);
            lemma_joined_is_octet(values, count, c1, c2, c3);
        }
    } else if !is_symbol(first->0) {
        assert(input[pulled] == first->0);
        lemma_stream_error(input, count, pulled);
    } else {
        assert(input[pulled] == first->0);
        if pulls(state.phase) == 1 || second is None {
            lemma_stream_byte(input, count, needed);
            lemma_joined_is_octet(values, count, c1, c2, c3);
        } else {
            assert(input[pulled + 1] == second->0);
            if !is_symbol(second->0) {
                assert forall|j: int| 0 <= j < pulled + 1 implies is_symbol(#[trigger] input[j]) by {
                }
                lemma_stream_error(input, count, pulled + 1);
            } else {
                lemma_stream_byte(input, count, needed);
                lemma_joined_is_octet(values, count, c1, c2, c3);
            }
        }
    }
}

/// How far a decoder that is not finished is from the end of its items: an
/// error is still to come while the input holds a character that is no
/// symbol, and a step that ends the decoding without an error has handed out
/// the last byte.
pub proof fn lemma_step_ends(state: DecoderState, pending: Seq<char>)
    requires
        state.wf(),
        !state.finished,
    ensures
        ({
            let input = state.consumed + pending;
            let after = state.step(pending);
            &&& state.emitted <= decoded_stream(input).len()
            &&& first_invalid(input) < input.len() ==> state.emitted < decoded_stream(input).len()
            &&& after.finished && !(state.output(pending) matches Some(Err(_))) ==> {
                &&& after.emitted == decoded_stream(input).len()
                &&& first_invalid(input) == input.len()
            }
        }),
{
    let input = state.consumed + pending;
    let count = state.emitted as int;
    let pulled = state.consumed.len() as int;
    let after = state.step(pending);
    lemma_step_decodes(state, pending);
    lemma_cycle_counts(count);
    lemma_first_invalid(state.consumed);
    assert forall|j: int| 0 <= j < pulled implies is_symbol(#[trigger] input[j]) by {
        assert(input[j] == state.consumed[j]);
    }
    if state.output(pending) is None {
        assert(input =~= state.consumed);
        lemma_stream_end(input);
        lemma_div8(5 * pulled + 7, count, 7);
    } else if after.finished && !(state.output(pending) matches Some(Err(_))) {
        assert(pending.len() < pulls(state.phase));
        assert forall|j: int| 0 <= j < input.len() implies is_symbol(#[trigger] input[j]) by {
            if j >= pulled {
                assert(input[j] == pending[j - pulled]);
            }
        }
        lemma_stream_end(input);
        lemma_first_invalid_is(input, input.len() as int);
        assert(8 * count < 5 * input.len() <= 8 * count + 7);
        let length = input.len() as int;
        lemma_div8(5 * length + 7, count + 1, 5 * length + 7 - 8 * (count + 1));
    }
}

/// The phase wraps with the input: a decoder at a cycle's start that is not
/// finished has pulled whole groups of eight symbols and handed out five
/// bytes for each.
pub proof fn lemma_phase_wraps(state: DecoderState)
    requires
        state.wf(),
        !state.finished,
        state.phase == 0,
    ensures
        state.consumed.len() % 8 == 0,
        8 * state.emitted == 5 * state.consumed.len(),
{
    lemma_cycle_counts(state.emitted as int);
}

/// In a round trip the two cycles meet: a decoder that has pulled just the
/// symbols which an encoder at a cycle's start has handed out is at a cycle's
/// start too, and has handed out as many bytes as the encoder pulled.
pub proof fn lemma_phases_align(encoder: EncoderState, decoder: DecoderState)
    requires
        encoder.wf(),
        encoder.phase == 0,
        decoder.wf(),
        !decoder.finished,
        decoder.consumed.len() == encoder.emitted,
    ensures
        decoder.phase == 0,
        decoder.emitted == encoder.consumed.len(),
{
    crate::encoder::lemma_phase_wraps(encoder);
    lemma_cycle_counts(decoder.emitted as int);
}

/// The bytes of a symbol source, produced as they are asked for.
pub struct CrockfordDecoder<I: Iterator<Item = char>> {
    chars: I,
    cycle_position: usize,
    buffer: Option<u8>,
    finished: bool,
    position: usize,
    consumed: Ghost<Seq<char>>,
    emitted: Ghost<nat>,
}

impl<I: Iterator<Item = char>> View for CrockfordDecoder<I> {
    type V = DecoderState;

    closed spec fn view(&self) -> DecoderState {
        DecoderState {
            phase: self.cycle_position as nat,
            carry: self.buffer,
            finished: self.finished,
            consumed: self.consumed@,
            emitted: self.emitted@,
            position: self.position,
        }
    }
}

impl<I: Iterator<Item = char>> CrockfordDecoder<I> {
    /// The characters not pulled yet.
    pub closed spec fn source(&self) -> I {
        self.chars
    }

    /// Pulls one character and looks it up. A source that has run dry gives
    /// the value 0 and marks the decoder as finished; so does, with an error,
    /// a character that is no symbol. A finished decoder does not pull.
    pub fn get_next(&mut self) -> (fetched: Result<u8, CrockfordDecodeError>)
        ensures
            same_protocol(old(self).source(), final(self).source()),
            old(self)@.finished ==> final(self).source() == old(self).source(),
            exists|symbol: Option<char>|
                final(self)@ == #[trigger] old(self)@.pull(symbol) && fetched == old(self)@.pulled(
                    symbol,
                ),
            old(self).source().obeys_prophetic_iter_laws() ==> ({
                let pending = old(self).source().remaining();
                let pulls = !old(self)@.finished && pending.len() > 0;
                &&& final(self)@ == old(self)@.pull(first_of(pending))
                &&& fetched == old(self)@.pulled(first_of(pending))
                &&& final(self).source().remaining() == if pulls {
                    pending.drop_first()
                } else {
                    pending
                }
                &&& pulls && final(self).source().decrease() is Some ==> decreases_to!(
                    old(self).source().decrease()->0 => final(self).source().decrease()->0
                )
            }),
    {
        if self.finished {
            proof {
                assert(self@ == old(self)@.pull(None));
            }
            return Ok(0);
        }
        if let Some(next) = self.chars.next() {
            let at = self.position;
            if self.position < usize::MAX {
                self.position = self.position + 1;
            }
            proof {
                self.consumed@ = self.consumed@.push(next);
            }
            match crockford_index(next) {
                Some(value) => {
                    proof {
                        assert(self@ =~= old(self)@.pull(Some(next)));
                    }
                    Ok(value)
                },
                None => {
                    self.finished = true;
                    proof {
                        assert(self@ =~= old(self)@.pull(Some(next)));
                    }
                    Err(CrockfordDecodeError { character: next, slice_position: at })
                },
            }
        } else {
            self.finished = true;
            proof {
                assert(self@ =~= old(self)@.pull(None));
            }
            Ok(0)
        }
    }

    /// Reads the value in the carry cell. The cell keeps it.
    pub fn pop_buffer(&mut self) -> (value: u8)
        requires
            old(self)@.carry is Some,
        ensures
            old(self)@.carry == Some(value),
            final(self)@ == old(self)@,
            final(self).source() == old(self).source(),
    {
        self.buffer.expect("value should always be populated")
    }

    /// Puts `value` into the carry cell.
    pub fn push_buffer(&mut self, value: u8)
        ensures
            final(self)@ == (DecoderState { carry: Some(value), ..old(self)@ }),
            final(self).source() == old(self).source(),
    {
        self.buffer = Some(value);
    }

    /// Hands out the next byte, or the error for a character that is no
    /// symbol, or `None` once the decoder is finished.
    ///
    /// Over the whole input (the characters pulled so far, then those still to
    /// come) the items handed out are those of [`decoded_stream`], in order:
    /// when a pull finds the source dry in the middle of a byte, the missing
    /// bits are zero, that last byte is still handed out, and the decoder is
    /// finished. The step that pulls a character that is no symbol hands out
    /// the error in place of its byte, and the decoder is finished.
    #[verifier::rlimit(60)]
    pub fn next(&mut self) -> (item: Option<Result<u8, CrockfordDecodeError>>)
        requires
            old(self)@.wf(),
        ensures
            final(self)@.wf(),
            same_protocol(old(self).source(), final(self).source()),
            old(self)@.finished ==> final(self).source() == old(self).source(),
            exists|pending: Seq<char>|
                final(self)@ == #[trigger] old(self)@.step(pending) && item == old(self)@.output(
                    pending,
                ),
            old(self).source().obeys_prophetic_iter_laws() ==> ({
                let pending = old(self).source().remaining();
                let input = old(self)@.consumed + pending;
                let taken = final(self)@.consumed.len() - old(self)@.consumed.len();
                &&& final(self)@ == old(self)@.step(pending)
                &&& item == if !old(self)@.finished && old(self)@.emitted < decoded_stream(
                    input,
                ).len() {
                    Some(decoded_stream(input)[old(self)@.emitted as int])
                } else {
                    None
                }
                &&& final(self)@.consumed + final(self).source().remaining() == input
                &&& 0 <= taken <= pending.len()
                &&& final(self).source().remaining() == pending.skip(taken)
                &&& !final(self)@.finished && final(self).source().decrease() is Some
                    ==> decreases_to!(
                    old(self).source().decrease()->0 => final(self).source().decrease()->0
                )
            }),
    {
        if self.finished {
            proof {
                assert(self@ == old(self)@.step(Seq::empty()));
                if self.chars.obeys_prophetic_iter_laws() {
                    assert(self.chars.remaining().skip(0) =~= self.chars.remaining());
                }
            }
            return None;
        }
        let ghost before = self@;
        let phase = self.cycle_position;
        proof {
            lemma_first_invalid(before.consumed);
        }
        let carried: u8 = if phase == 0 {
            0
        } else {
            self.pop_buffer()
        };
        let first = match self.get_next() {
            Ok(value) => value,
            Err(error) => {
                proof {
                    let symbol = choose|symbol: Option<char>|
                        self@ == #[trigger] before.pull(symbol) && Err::<
                            u8,
                            CrockfordDecodeError,
                        >(error) == before.pulled(symbol);
                    let witness = answers(symbol, None);
                    assert(self@ =~= before.step(witness));
                    lemma_step_wf(before, witness);
                    if old(self).source().obeys_prophetic_iter_laws() {
                        let pending = old(self).source().remaining();
                        assert(self@ =~= before.step(pending));
                        lemma_step_decodes(before, pending);
                        assert(pending.skip(1) =~= pending.drop_first());
                    }
                }
                return Some(Err(error));
            },
        };
        let ghost one = self@;
        let ghost symbol = choose|symbol: Option<char>|
            one == #[trigger] before.pull(symbol) && Ok::<u8, CrockfordDecodeError>(first)
                == before.pulled(symbol);
        if phase == 0 && self.finished {
            proof {
                let witness = answers(symbol, None);
                assert(self@ =~= before.step(witness));
                lemma_step_wf(before, witness);
                if old(self).source().obeys_prophetic_iter_laws() {
                    let pending = old(self).source().remaining();
                    assert(self@ =~= before.step(pending));
                    lemma_step_decodes(before, pending);
                    assert(pending.skip(0) =~= pending);
                }
            }
            return None;
        }
        let ghost middle = self.chars;
        let second: u8 = if phase == 2 || phase == 4 {
            0
        } else {
            match self.get_next() {
                Ok(value) => value,
                Err(error) => {
                    proof {
                        let then = choose|then: Option<char>|
                            self@ == #[trigger] one.pull(then) && Err::<u8, CrockfordDecodeError>(
                                error,
                            ) == one.pulled(then);
                        let witness = answers(symbol, then);
                        assert(self@ =~= before.step(witness));
                        lemma_step_wf(before, witness);
                        if old(self).source().obeys_prophetic_iter_laws() {
                            let pending = old(self).source().remaining();
                            assert(middle.remaining() == pending.skip(1));
                            assert(self@ =~= before.step(pending));
                            lemma_step_decodes(before, pending);
                            assert(pending.skip(2) =~= pending.skip(1).drop_first());
                        }
                    }
                    return Some(Err(error));
                },
            }
        };
        let ghost two = self@;
        let ghost then = if phase == 2 || phase == 4 {
            None
        } else {
            choose|then: Option<char>|
                two == #[trigger] one.pull(then) && Ok::<u8, CrockfordDecodeError>(second)
                    == one.pulled(then)
        };
        let decoded: u8 = match phase {
            0 => {
                let c1_shifted = first << 3;
                let c2_shifted = (second & 0b00011100) >> 2;
                let data = c1_shifted | c2_shifted;
                self.push_buffer(second);
                data
            },
            1 => {
                let c1 = (carried & 0b00011) << 6;
                let c2 = first << 1;
                self.push_buffer(second);
                let c3 = (second & 0b10000) >> 4;
                let data = c1 | c2 | c3;
                data
            },
            2 => {
                self.push_buffer(first);
                let c1 = (carried & 0b01111) << 4;
                let c2 = (first & 0b11110) >> 1;
                let data = c1 | c2;
                data
            },
            3 => {
                self.push_buffer(second);
                let c1 = (carried & 0b00001) << 7;
                let c2 = first << 2;
                let c3 = (second & 0b11000) >> 3;
                let data = c1 | c2 | c3;
                data
            },
            _ => {
                self.buffer = None;
                let c1 = (carried & 0b00111) << 5;
                let data = c1 | first;
                data
            },
        };
        self.cycle_position = (self.cycle_position + 1) % 5;
        proof {
            self.emitted@ = self.emitted@ + 1;
        }
        proof {
            let witness = answers(symbol, then);
            assert(self@ =~= before.step(witness));
            assert(Some(Ok::<u8, CrockfordDecodeError>(decoded)) == before.output(witness));
            lemma_step_wf(before, witness);
            if old(self).source().obeys_prophetic_iter_laws() {
                let pending = old(self).source().remaining();
                assert(middle.remaining() == pending.skip(1) || pending.len() == 0);
                assert(self@ =~= before.step(pending));
                assert(Some(Ok::<u8, CrockfordDecodeError>(decoded)) == before.output(pending));
                lemma_step_decodes(before, pending);
                assert(pending.skip(0) =~= pending);
                assert(pending.len() >= 2 ==> pending.skip(2) =~= pending.skip(1).drop_first());
            }
        }
        Some(Ok(decoded))
    }

    /// Hands out all the bytes that are left, in order, or the error for the
    /// first character that is no symbol.
    ///
    /// The source has to be one whose pulls come to an end.
    pub fn collect(self) -> (bytes: Result<Vec<u8>, CrockfordDecodeError>)
        requires
            self@.wf(),
            self.source().obeys_prophetic_iter_laws(),
            self.source().decrease() is Some,
        ensures
            self@ == DecoderState::fresh() ==> match decoded(self.source().remaining()) {
                Ok(all) => bytes is Ok && bytes->Ok_0@ == all,
                Err(error) => bytes == Err::<Vec<u8>, CrockfordDecodeError>(error),
            },
            !self@.finished ==> match decoded(self@.consumed + self.source().remaining()) {
                Ok(all) => bytes is Ok && bytes->Ok_0@ == all.skip(self@.emitted as int),
                Err(error) => bytes == Err::<Vec<u8>, CrockfordDecodeError>(error),
            },
            self@.finished ==> bytes is Ok && bytes->Ok_0@.len() == 0,
    {
        let ghost start = self@;
        let ghost origin = self.source();
        let mut producer = self;
        let mut bytes: Vec<u8> = Vec::new();
        proof {
            assert(start == DecoderState::fresh() ==> start.consumed + origin.remaining()
                =~= origin.remaining());
            assert(decoded(origin.remaining()) is Ok ==> decoded(origin.remaining())->Ok_0.skip(0)
                =~= decoded(origin.remaining())->Ok_0);
            assert(!start.finished ==> start.emitted <= decoded_stream(
                start.consumed + origin.remaining(),
            ).len()) by {
                if !start.finished {
                    lemma_step_ends(start, origin.remaining());
                }
            }
        }
        loop
            invariant
                start == self@,
                origin == self.source(),
                producer@.wf(),
                producer.source().obeys_prophetic_iter_laws(),
                producer.source().decrease() is Some,
                producer@.consumed + producer.source().remaining() == start.consumed
                    + origin.remaining(),
                start == DecoderState::fresh() ==> start.consumed + origin.remaining()
                    == origin.remaining(),
                start.finished ==> producer@.finished && bytes@.len() == 0,
                !start.finished ==> start.emitted <= producer@.emitted <= decoded_stream(
                    start.consumed + origin.remaining(),
                ).len(),
                !start.finished ==> bytes@.len() == producer@.emitted - start.emitted,
                !start.finished ==> forall|i: int|
                    0 <= i < bytes@.len() ==> decoded_stream(start.consumed + origin.remaining())[i
                        + start.emitted] == Ok::<u8, CrockfordDecodeError>(#[trigger] bytes@[i]),
                !start.finished && producer@.finished ==> {
                    &&& producer@.emitted == decoded_stream(
                        start.consumed + origin.remaining(),
                    ).len()
                    &&& first_invalid(start.consumed + origin.remaining()) == (start.consumed
                        + origin.remaining()).len()
                },
            ensures
                !start.finished ==> decoded(start.consumed + origin.remaining()) is Ok && bytes@
                    == decoded(start.consumed + origin.remaining())->Ok_0.skip(
                    start.emitted as int,
                ),
                start.finished ==> bytes@.len() == 0,
            decreases
                    (if producer@.finished {
                        0nat
                    } else {
                        1nat
                    }),
                    producer.source().decrease()->0,
        {
            let ghost before = producer@;
            proof {
                if !before.finished {
                    lemma_step_ends(before, producer.source().remaining());
                }
            }
            match producer.next() {
                Some(Ok(byte)) => {
                    bytes.push(byte);
                },
                Some(Err(error)) => {
                    proof {
                        let input = start.consumed + origin.remaining();
                        assert(!before.finished);
                        assert(decoded_stream(input)[before.emitted as int] == Err::<
                            u8,
                            CrockfordDecodeError,
                        >(error));
                        assert(decoded(input) == Err::<Seq<u8>, CrockfordDecodeError>(error));
                    }
                    return Err(error);
                },
                None => {
                    proof {
                        let input = start.consumed + origin.remaining();
                        if !start.finished {
                            assert(first_invalid(input) == input.len());
                            assert(bytes@ =~= decoded(input)->Ok_0.skip(start.emitted as int));
                        }
                    }
                    break ;
                },
            }
        }
        Ok(bytes)
    }
}

/// A sequence of characters that a source answers two pulls with.
spec fn answers(first: Option<char>, second: Option<char>) -> Seq<char> {
    match first {
        Some(a) => match second {
            Some(b) => seq![a, b],
            None => seq![a],
        },
        None => Seq::empty(),
    }
}

/// Turns a symbol source into its bytes.
pub trait IntoCrockfordDecoder<I: Iterator<Item = char>>: Sized {
    /// The symbol source that `self` is.
    spec fn symbol_source(self) -> I;

    /// Starts decoding the symbols of `self`.
    fn crockford_decoded(self) -> (bytes: CrockfordDecoder<I>)
        ensures
            bytes.source() == self.symbol_source(),
            bytes@ == DecoderState::fresh(),
            bytes@.wf(),
    ;
}

impl<I: Iterator<Item = char>> IntoCrockfordDecoder<I> for I {
    open spec fn symbol_source(self) -> I {
        self
    }

    fn crockford_decoded(self) -> (bytes: CrockfordDecoder<I>) {
        CrockfordDecoder {
            chars: self,
            cycle_position: 0,
            buffer: None,
            finished: false,
            position: 0,
            consumed: Ghost(Seq::empty()),
            emitted: Ghost(0),
        }
    }
}

} // verus!
