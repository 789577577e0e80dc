//! The streaming encoder: bytes in, symbols out, one symbol per pull.

use crate::alphabet::CROCKFORD_ALPHABET;
use crate::regroup::{
    bit_of, byte_or_zero, encoded, encoded_len, lemma_byte_bit, lemma_div5, lemma_div8,
    lemma_quintet_bound, quintet,
};
use crate::source::{first_of, same_protocol};
use vstd::prelude::*;
use vstd::std_specs::iter::IteratorSpec;

verus! {

/// What an encoder remembers between two pulls.
#[verifier::ext_equal]
pub struct EncoderState {
    /// The position in the cycle of eight symbols.
    pub phase: nat,
    /// The byte that still holds bits of the next symbol.
    pub carry: Option<u8>,
    /// Whether the source has run dry.
    pub finished: bool,
    /// The bytes pulled from the source so far.
    pub consumed: Seq<u8>,
    /// How many symbols were handed out so far.
    pub emitted: nat,
}

impl EncoderState {
    /// The state of an encoder that has not pulled anything yet.
    pub open spec fn fresh() -> EncoderState {
        EncoderState { phase: 0, carry: None, finished: false, consumed: Seq::empty(), emitted: 0 }
    }

    /// The phase follows the symbols handed out, the carry is empty at a
    /// cycle's start and otherwise holds the last byte pulled, and exactly
    /// the bytes that the symbols so far needed were pulled.
    pub open spec fn wf(self) -> bool {
        &&& self.phase == self.emitted % 8
        &&& self.phase == 0 ==> self.carry is None
        &&& !self.finished ==> {
            &&& self.consumed.len() == (5 * self.emitted + 7) / 8
            &&& self.phase != 0 ==> self.carry == Some(self.consumed.last())
        }
        &&& self.finished ==> self.emitted == encoded_len(self.consumed.len())
    }

    /// The byte in the carry cell, zero where it is empty.
    pub open spec fn carried(self) -> u8 {
        match self.carry {
            Some(byte) => byte,
            None => 0,
        }
    }

    /// The value of the symbol that the next step hands out, where `fetched`
    /// is what the source gives if the step pulls: `None` from a finished
    /// encoder, and at a cycle's start when the source is dry.
    pub open spec fn output(self, fetched: Option<u8>) -> Option<u8> {
        if self.finished || self.phase == 0 && fetched is None {
            None
        } else {
            Some(spliced(self.phase, self.carried(), zero_padded(fetched)))
        }
    }

    /// The state after the next step, where `fetched` is what the source
    /// gives if the step pulls.
    pub open spec fn step(self, fetched: Option<u8>) -> EncoderState {
        if self.finished {
            self
        } else if self.phase == 0 && fetched is None {
            EncoderState { finished: true, ..self }
        } else {
            EncoderState {
                phase: (self.phase + 1) % 8,
                carry: if self.phase == 7 {
                    None
                } else if fetches(self.phase) {
                    Some(zero_padded(fetched))
                } else {
                    self.carry
                },
                finished: fetches(self.phase) && fetched is None,
                consumed: if fetches(self.phase) && fetched is Some {
                    self.consumed.push(fetched->0)
                } else {
                    self.consumed
                },
                emitted: self.emitted + 1,
            }
        }
    }
}

/// The byte that was pulled, zero where the source was dry.
pub open spec fn zero_padded(fetched: Option<u8>) -> u8 {
    match fetched {
        Some(byte) => byte,
        None => 0,
    }
}

/// The symbol for a value that a step hands out.
pub open spec fn symbol_for(value: Option<u8>) -> Option<char> {
    match value {
        Some(value) => Some(CROCKFORD_ALPHABET@[value as int]),
        None => None,
    }
}


/// Whether a step in `phase` pulls a byte; the other phases only cut the next
/// symbol out of the carry.
pub open spec fn fetches(phase: nat) -> bool {
    phase == 0 || phase == 1 || phase == 3 || phase == 4 || phase == 6
}

/// The transition table: the symbol value that a step in `phase` cuts out of
/// the carried byte `prev` and the byte `next` that it pulled. Phase 0 has no
/// carry, and phases 2, 5 and 7 pull nothing.
pub open spec fn spliced(phase: nat, prev: u8, next: u8) -> u8 {
    if phase == 0 {
        (next & 0b11111000) >> 3
    } else if phase == 1 {
        (prev & 0b00000111) << 2 | (next & 0b11000000) >> 6
    } else if phase == 2 {
        (prev & 0b00111110) >> 1
    } else if phase == 3 {
        (prev & 0b00000001) << 4 | (next & 0b11110000) >> 4
    } else if phase == 4 {
        (prev & 0b00001111) << 1 | (next & 0b10000000) >> 7
    } else if phase == 5 {
        (prev & 0b01111100) >> 2
    } else if phase == 6 {
        (prev & 0b00000011) << 3 | (next & 0b11100000) >> 5
    } else {
        prev & 0b00011111
    }
}

proof fn lemma_spliced_bits(prev: u8, next: u8)
    by (bit_vector)
    ensures
        (next & 0b11111000) >> 3 == 16 * bit_of(next, 7) + 8 * bit_of(next, 6) + 4 * bit_of(
            next,
            5,
        ) + 2 * bit_of(next, 4) + bit_of(next, 3),
        (prev & 0b00000111) << 2 | (next & 0b11000000) >> 6 == 16 * bit_of(prev, 2) + 8 * bit_of(
            prev,
            1,
        ) + 4 * bit_of(prev, 0) + 2 * bit_of(next, 7) + bit_of(next, 6),
        (prev & 0b00111110) >> 1 == 16 * bit_of(prev, 5) + 8 * bit_of(prev, 4) + 4 * bit_of(
            prev,
            3,
        ) + 2 * bit_of(prev, 2) + bit_of(prev, 1),
        (prev & 0b00000001) << 4 | (next & 0b11110000) >> 4 == 16 * bit_of(prev, 0) + 8 * bit_of(
            next,
            7,
        ) + 4 * bit_of(next, 6) + 2 * bit_of(next, 5) + bit_of(next, 4),
        (prev & 0b00001111) << 1 | (next & 0b10000000) >> 7 == 16 * bit_of(prev, 3) + 8 * bit_of(
            prev,
            2,
        ) + 4 * bit_of(prev, 1) + 2 * bit_of(prev, 0) + bit_of(next, 7),
        (prev & 0b01111100) >> 2 == 16 * bit_of(prev, 6) + 8 * bit_of(prev, 5) + 4 * bit_of(
            prev,
            4,
        ) + 2 * bit_of(prev, 3) + bit_of(prev, 2),
        (prev & 0b00000011) << 3 | (next & 0b11100000) >> 5 == 16 * bit_of(prev, 1) + 8 * bit_of(
            prev,
            0,
        ) + 4 * bit_of(next, 7) + 2 * bit_of(next, 6) + bit_of(next, 5),
        prev & 0b00011111 == 16 * bit_of(prev, 4) + 8 * bit_of(prev, 3) + 4 * bit_of(prev, 2) + 2
            * bit_of(prev, 1) + bit_of(prev, 0),
{
}

/// Every entry of the table is a five-bit value.
pub proof fn lemma_spliced_bound(phase: nat, prev: u8, next: u8)
    ensures
        spliced(phase, prev, next) < 32,
{
    assert((next & 0b11111000) >> 3 < 32) by (bit_vector);
    assert((prev & 0b00000111) << 2 | (next & 0b11000000) >> 6 < 32) by (bit_vector);
    assert((prev & 0b00111110) >> 1 < 32) by (bit_vector);
    assert((prev & 0b00000001) << 4 | (next & 0b11110000) >> 4 < 32) by (bit_vector);
    assert((prev & 0b00001111) << 1 | (next & 0b10000000) >> 7 < 32) by (bit_vector);
    assert((prev & 0b01111100) >> 2 < 32) by (bit_vector);
    assert((prev & 0b00000011) << 3 | (next & 0b11100000) >> 5 < 32) by (bit_vector);
    assert(prev & 0b00011111 < 32) by (bit_vector);
}

/// The table cuts symbol `i` out of the byte that holds its first bit and the
/// byte after it, whatever else the input holds.
pub proof fn lemma_spliced_is_quintet(bytes: Seq<u8>, i: int, prev: u8, next: u8)
    requires
        0 <= i,
        i % 8 == 0 ==> next == byte_or_zero(bytes, 5 * i / 8),
        i % 8 != 0 ==> prev == byte_or_zero(bytes, 5 * i / 8),
        i % 8 != 0 && fetches((i % 8) as nat) ==> next == byte_or_zero(bytes, 5 * i / 8 + 1),
    ensures
        spliced((i % 8) as nat, prev, next) == quintet(bytes, i),
{
    let cycle = i / 8;
    let phase = i % 8;
    let first = 5 * cycle;
    let bit = 5 * i;
    assert(i == 8 * cycle + phase);
    lemma_spliced_bits(prev, next);
    if phase == 0 {
        assert(bit / 8 == first);
        lemma_byte_bit(bytes, bit, first, 7);
        lemma_byte_bit(bytes, bit + 1, first, 6);
        lemma_byte_bit(bytes, bit + 2, first, 5);
        lemma_byte_bit(bytes, bit + 3, first, 4);
        lemma_byte_bit(bytes, bit + 4, first, 3);
    } else if phase == 1 {
        assert(bit / 8 == first);
        lemma_byte_bit(bytes, bit, first, 2);
        lemma_byte_bit(bytes, bit + 1, first, 1);
        lemma_byte_bit(bytes, bit + 2, first, 0);
        lemma_byte_bit(bytes, bit + 3, first + 1, 7);
        lemma_byte_bit(bytes, bit + 4, first + 1, 6);
    } else if phase == 2 {
        assert(bit / 8 == first + 1);
        lemma_byte_bit(bytes, bit, first + 1, 5);
        lemma_byte_bit(bytes, bit + 1, first + 1, 4);
        lemma_byte_bit(bytes, bit + 2, first + 1, 3);
        lemma_byte_bit(bytes, bit + 3, first + 1, 2);
        lemma_byte_bit(bytes, bit + 4, first + 1, 1);
    } else if phase == 3 {
        assert(bit / 8 == first + 1);
        lemma_byte_bit(bytes, bit, first + 1, 0);
        lemma_byte_bit(bytes, bit + 1, first + 2, 7);
        lemma_byte_bit(bytes, bit + 2, first + 2, 6);
        lemma_byte_bit(bytes, bit + 3, first + 2, 5);
        lemma_byte_bit(bytes, bit + 4, first + 2, 4);
    } else if phase == 4 {
        assert(bit / 8 == first + 2);
        lemma_byte_bit(bytes, bit, first + 2, 3);
        lemma_byte_bit(bytes, bit + 1, first + 2, 2);
        lemma_byte_bit(bytes, bit + 2, first + 2, 1);
        lemma_byte_bit(bytes, bit + 3, first + 2, 0);
        lemma_byte_bit(bytes, bit + 4, first + 3, 7);
    } else if phase == 5 {
        assert(bit / 8 == first + 3);
        lemma_byte_bit(bytes, bit, first + 3, 6);
        lemma_byte_bit(bytes, bit + 1, first + 3, 5);
        lemma_byte_bit(bytes, bit + 2, first + 3, 4);
        lemma_byte_bit(bytes, bit + 3, first + 3, 3);
        lemma_byte_bit(bytes, bit + 4, first + 3, 2);
    } else if phase == 6 {
        assert(bit / 8 == first + 3);
        lemma_byte_bit(bytes, bit, first + 3, 1);
        lemma_byte_bit(bytes, bit + 1, first + 3, 0);
        lemma_byte_bit(bytes, bit + 2, first + 4, 7);
        lemma_byte_bit(bytes, bit + 3, first + 4, 6);
        lemma_byte_bit(bytes, bit + 4, first + 4, 5);
    } else {
        assert(bit / 8 == first + 4);
        lemma_byte_bit(bytes, bit, first + 4, 4);
        lemma_byte_bit(bytes, bit + 1, first + 4, 3);
        lemma_byte_bit(bytes, bit + 2, first + 4, 2);
        lemma_byte_bit(bytes, bit + 3, first + 4, 1);
        lemma_byte_bit(bytes, bit + 4, first + 4, 0);
    }
}

/// How many bytes the first `count` symbols need, and how many symbols as
/// many bytes encode to, by the phase of `count`.
proof fn lemma_cycle_counts(count: int)
    requires
        0 <= count,
    ensures
        ({
            let cycle = count / 8;
            let phase = count % 8;
            let bytes = (5 * count + 7) / 8;
            &&& count == 8 * cycle + phase
            &&& bytes == 5 * cycle + if phase == 0 {
                0int
            } else if phase == 1 {
                1
            } else if phase <= 3 {
                2
            } else if phase == 4 {
                3
            } else if phase <= 6 {
                4
            } else {
                5
            }
            &&& (8 * bytes + 4) / 5 == 8 * cycle + if phase == 0 {
                0int
            } else if phase == 1 {
                2
            } else if phase <= 3 {
                4
            } else if phase == 4 {
                5
            } else if phase <= 6 {
                7
            } else {
                8
            }
        }),
{
    let cycle = count / 8;
    let phase = count % 8;
    if phase == 0 {
        lemma_div8(5 * count + 7, 5 * cycle, 7);
        lemma_div5(40 * cycle + 4, 8 * cycle, 4);
    } else if phase == 1 {
        lemma_div8(5 * count + 7, 5 * cycle + 1, 4);
        lemma_div5(40 * cycle + 12, 8 * cycle + 2, 2);
    } else if phase == 2 {
        lemma_div8(5 * count + 7, 5 * cycle + 2, 1);
        lemma_div5(40 * cycle + 20, 8 * cycle + 4, 0);
    } else if phase == 3 {
        lemma_div8(5 * count + 7, 5 * cycle + 2, 6);
        lemma_div5(40 * cycle + 20, 8 * cycle + 4, 0);
    } else if phase == 4 {
        lemma_div8(5 * count + 7, 5 * cycle + 3, 3);
        lemma_div5(40 * cycle + 28, 8 * cycle + 5, 3);
    } else if phase == 5 {
        lemma_div8(5 * count + 7, 5 * cycle + 4, 0);
        lemma_div5(40 * cycle + 36, 8 * cycle + 7, 1);
    } else if phase == 6 {
        lemma_div8(5 * count + 7, 5 * cycle + 4, 5);
        lemma_div5(40 * cycle + 36, 8 * cycle + 7, 1);
    } else {
        lemma_div8(5 * count + 7, 5 * cycle + 5, 2);
        lemma_div5(40 * cycle + 44, 8 * cycle + 8, 4);
    }
}

/// A step keeps the state well formed.
pub proof fn lemma_step_wf(state: EncoderState, fetched: Option<u8>)
    requires
        state.wf(),
    ensures
        state.step(fetched).wf(),
{
    let count = state.emitted as int;
    let after = state.step(fetched);
    lemma_cycle_counts(count);
    if state.finished {
    } else if state.phase == 0 && fetched is None {
    } else {
        lemma_cycle_counts(count + 1);
        if state.phase == 7 {
            lemma_div8(count + 1, count / 8 + 1, 0);
        } else {
            lemma_div8(count + 1, count / 8, state.phase as int + 1);
        }
        if fetches(state.phase) && fetched is Some {
            assert(after.consumed.last() == fetched->0);
        }
    }
}

/// A step hands out the next symbol of the encoding of the whole input: the
/// bytes pulled so far, then those still to come.
pub proof fn lemma_step_encodes(state: EncoderState, pending: Seq<u8>)
    requires
        state.wf(),
        !state.finished,
    ensures
        ({
            let input = state.consumed + pending;
            let after = state.step(first_of(pending));
            let rest = if fetches(state.phase) && pending.len() > 0 {
                pending.drop_first()
            } else {
                pending
            };
            &&& symbol_for(state.output(first_of(pending))) == if state.emitted < encoded(
                input,
            ).len() {
                Some(encoded(input)[state.emitted as int])
            } else {
                None
            }
            &&& after.consumed + rest == input
        }),
{
    let input = state.consumed + pending;
    let fetched = first_of(pending);
    let count = state.emitted as int;
    let cycle = count / 8;
    let pulled = state.consumed.len() as int;
    assert(count == 8 * cycle + state.phase);
    let after = state.step(fetched);
    let rest = if fetches(state.phase) && pending.len() > 0 {
        pending.drop_first()
    } else {
        pending
    };
    assert(after.consumed + rest =~= input);
    if state.phase == 0 {
        assert(pulled == 5 * cycle);
        assert(5 * count / 8 == pulled);
    } else {
        assert(5 * count / 8 == pulled - 1);
        assert(byte_or_zero(input, pulled - 1) == state.carried());
    }
    assert(byte_or_zero(input, pulled) == zero_padded(fetched));
    if state.phase == 0 && fetched is None {
        assert(input.len() == pulled);
    } else {
        assert(8 * input.len() > 5 * count);
        lemma_spliced_is_quintet(input, count, state.carried(), zero_padded(fetched));
        lemma_quintet_bound(input, count);
    }
}

/// An encoder that is not finished has handed out no more symbols than its
/// input encodes to.
pub proof fn lemma_emitted_in_range(state: EncoderState, pending: Seq<u8>)
    requires
        state.wf(),
        !state.finished,
    ensures
        state.emitted <= encoded(state.consumed + pending).len(),
{
    let input = state.consumed + pending;
    lemma_cycle_counts(state.emitted as int);
    assert(8 * input.len() + 4 >= 8 * state.consumed.len() + 4);
}

/// The phase wraps with the input: an encoder at a cycle's start has pulled
/// whole groups of five bytes and handed out eight symbols for each.
pub proof fn lemma_phase_wraps(state: EncoderState)
    requires
        state.wf(),
        state.phase == 0,
    ensures
        state.consumed.len() % 5 == 0,
        5 * state.emitted == 8 * state.consumed.len(),
{
    let cycle = state.emitted as int / 8;
    lemma_cycle_counts(state.emitted as int);
    if state.finished {
        let bytes = state.consumed.len() as int;
        assert(40 * cycle <= 8 * bytes + 4 < 40 * cycle + 5);
        assert(bytes == 5 * cycle);
    }
}

/// A byte source that is to be encoded.
pub struct CrockfordEncoder<I: Iterator<Item = u8>> {
    byte_stream: I,
}

impl<I: Iterator<Item = u8>> CrockfordEncoder<I> {
    /// The bytes that will be encoded.
    pub closed spec fn source(&self) -> I {
        self.byte_stream
    }

    /// Takes the bytes to encode.
    pub fn new(byte_stream: I) -> (encoder: Self)
        ensures
            encoder.source() == byte_stream,
    {
        CrockfordEncoder { byte_stream }
    }

    /// Starts encoding: the result hands out the symbols one by one.
    pub fn into_iter(self) -> (symbols: CrockfordEncoderIterator<I>)
        ensures
            symbols.source() == self.source(),
            symbols@ == EncoderState::fresh(),
            symbols@.wf(),
    {
        CrockfordEncoderIterator {
            byte_stream: self.byte_stream,
            cycle_position: 0,
            buffer: None,
            finished: false,
            consumed: Ghost(Seq::empty()),
            emitted: Ghost(0),
        }
    }
}

/// The symbols of a byte source, produced as they are asked for.
pub struct CrockfordEncoderIterator<I: Iterator<Item = u8>> {
    byte_stream: I,
    cycle_position: usize,
    buffer: Option<u8>,
    finished: bool,
    consumed: Ghost<Seq<u8>>,
    emitted: Ghost<nat>,
}

impl<I: Iterator<Item = u8>> View for CrockfordEncoderIterator<I> {
    type V = EncoderState;

    closed spec fn view(&self) -> EncoderState {
        EncoderState {
            phase: self.cycle_position as nat,
            carry: self.buffer,
            finished: self.finished,
            consumed: self.consumed@,
            emitted: self.emitted@,
        }
    }
}

impl<I: Iterator<Item = u8>> CrockfordEncoderIterator<I> {
    /// The bytes not pulled yet.
    pub closed spec fn source(&self) -> I {
        self.byte_stream
    }

    /// Pulls one byte. A source that has run dry gives 0 and marks the
    /// encoder as finished.
    pub fn get_next(&mut self) -> (byte: u8)
        ensures
            final(self)@.phase == old(self)@.phase,
            final(self)@.carry == old(self)@.carry,
            final(self)@.emitted == old(self)@.emitted,
            same_protocol(old(self).source(), final(self).source()),
            final(self)@.finished == old(self)@.finished && final(self)@.consumed == old(
                self,
            )@.consumed.push(byte) || final(self)@.finished && byte == 0 && final(self)@.consumed
                == old(self)@.consumed,
            old(self).source().obeys_prophetic_iter_laws() ==> ({
                let pending = old(self).source().remaining();
                if pending.len() > 0 {
                    &&& byte == pending[0]
                    &&& final(self)@.finished == old(self)@.finished
                    &&& final(self)@.consumed == old(self)@.consumed.push(byte)
                    &&& final(self).source().remaining() == pending.drop_first()
                    &&& final(self).source().decrease() is Some ==> decreases_to!(
                        old(self).source().decrease()->0 => final(self).source().decrease()->0
                    )
                } else {
                    &&& byte == 0
                    &&& final(self)@.finished
                    &&& final(self)@.consumed == old(self)@.consumed
                    &&& final(self).source().remaining() == pending
                }
            }),
    {
        if let Some(next) = self.byte_stream.next() {
            proof {
                self.consumed@ = self.consumed@.push(next);
            }
            next
        } else {
            self.finished = true;
            0
        }
    }

    /// Reads the byte in the carry cell. The cell keeps it.
    pub fn pop_buffer(&mut self) -> (value: u8)
        requires
            old(self)@.carry is Some,
        ensures
            old(self)@.carry == Some(value),
            final(self)@ == old(self)@,
            final(self).source() == old(self).source(),
    {
        self.buffer.expect("value should always be populated")
    }

    /// Puts `value` into the carry cell.
    pub fn push_buffer(&mut self, value: u8)
        ensures
            final(self)@ == (EncoderState { carry: Some(value), ..old(self)@ }),
            final(self).source() == old(self).source(),
    {
        self.buffer = Some(value);
    }

    /// Hands out the next symbol, or `None` once the source has run dry.
    ///
    /// Over the whole input (the bytes pulled so far, then those still to
    /// come) the symbols handed out are those of [`encoded`], in order: when a
    /// pull finds the source dry in the middle of a cycle, the missing bits are
    /// zero, that last symbol is still handed out, and the encoder is
    /// finished.
    pub fn next(&mut self) -> (symbol: Option<char>)
        requires
            old(self)@.wf(),
        ensures
            final(self)@.wf(),
            same_protocol(old(self).source(), final(self).source()),
            old(self)@.finished || !fetches(old(self)@.phase) ==> final(self).source() == old(
                self,
            ).source(),
            exists|fetched: Option<u8>|
                final(self)@ == #[trigger] old(self)@.step(fetched) && symbol == symbol_for(
                    old(self)@.output(fetched),
                ),
            old(self).source().obeys_prophetic_iter_laws() ==> ({
                let pending = old(self).source().remaining();
                let input = old(self)@.consumed + pending;
                let pulls = !old(self)@.finished && fetches(old(self)@.phase) && pending.len() > 0;
                &&& final(self)@ == old(self)@.step(first_of(pending))
                &&& symbol == if !old(self)@.finished && old(self)@.emitted < encoded(input).len() {
                    Some(encoded(input)[old(self)@.emitted as int])
                } else {
                    None
                }
                &&& final(self)@.consumed + final(self).source().remaining() == input
                &&& final(self).source().remaining() == if pulls {
                    pending.drop_first()
                } else {
                    pending
                }
                &&& pulls && final(self).source().decrease() is Some ==> decreases_to!(
                    old(self).source().decrease()->0 => final(self).source().decrease()->0
                )
            }),
    {
        if self.finished {
            proof {
                assert(self@ == old(self)@.step(None));
            }
            return None;
        }
        let ghost before = self@;
        let ghost fetched: Option<u8> = None;
        let value_to_encode: u8 = match self.cycle_position {
            0 => {
                let next = self.get_next();
                if self.finished {
                    proof {
                        assert(self@ =~= before.step(None));
                        lemma_step_wf(before, None);
                        if old(self).source().obeys_prophetic_iter_laws() {
                            lemma_step_encodes(before, old(self).source().remaining());
                        }
                    }
                    return None;
                }
                let data = (next & 0b11111000) >> 3;
                self.push_buffer(next);
                proof {
                    fetched = Some(next);
                }
                data
            },
            1 => {
                let prev = self.pop_buffer();
                let next = self.get_next();
                let prev_masked = (prev & 0b00000111) << 2;
                let next_masked = (next & 0b11000000) >> 6;
                let data = prev_masked | next_masked;
                self.push_buffer(next);
                proof {
                    fetched = if self.finished { None } else { Some(next) };
                }
                data
            },
            2 => {
                let prev = self.pop_buffer();
                let data = (prev & 0b00111110) >> 1;
                self.push_buffer(prev);
                data
            },
            3 => {
                let prev = self.pop_buffer();
                let next = self.get_next();
                let prev_masked = (prev & 0b00000001) << 4;
                let next_masked = (next & 0b11110000) >> 4;
                let data = prev_masked | next_masked;
                self.push_buffer(next);
                proof {
                    fetched = if self.finished { None } else { Some(next) };
                }
                data
            },
            4 => {
                let prev = self.pop_buffer();
                let next = self.get_next();
                let prev_masked = (prev & 0b00001111) << 1;
                let next_masked = (next & 0b10000000) >> 7;
                let data = prev_masked | next_masked;
                self.push_buffer(next);
                proof {
                    fetched = if self.finished { None } else { Some(next) };
                }
                data
            },
            5 => {
                let prev = self.pop_buffer();
                let data = (prev & 0b01111100) >> 2;
                self.push_buffer(prev);
                data
            },
            6 => {
                let prev = self.pop_buffer();
                let next = self.get_next();
                let prev_masked = (prev & 0b00000011) << 3;
                let next_masked = (next & 0b11100000) >> 5;
                let data = prev_masked | next_masked;
                self.push_buffer(next);
                proof {
                    fetched = if self.finished { None } else { Some(next) };
                }
                data
            },
            _ => {
                let prev = self.pop_buffer();
                let data = prev & 0b00011111;
                self.buffer = None;
                data
            },
        };
        proof {
            assert(before.output(fetched) == Some(value_to_encode));
            assert(self@ =~= (EncoderState {
                phase: before.phase,
                emitted: before.emitted,
                ..before.step(fetched)
            }));
            lemma_spliced_bound(before.phase, before.carried(), zero_padded(fetched));
            lemma_step_wf(before, fetched);
            if old(self).source().obeys_prophetic_iter_laws() {
                assert(fetches(before.phase) ==> fetched == first_of(
                    old(self).source().remaining(),
                ));
                lemma_step_encodes(before, old(self).source().remaining());
            }
        }
        let crockford_char = CROCKFORD_ALPHABET[value_to_encode as usize];
        self.cycle_position = (self.cycle_position + 1) % 8;
        proof {
            self.emitted@ = self.emitted@ + 1;
            assert(self@ =~= before.step(fetched));
        }
        Some(crockford_char)
    }

    /// Hands out all the symbols that are left, in order.
    ///
    /// The source has to be one whose pulls come to an end.
    pub fn collect(self) -> (symbols: Vec<char>)
        requires
            self@.wf(),
            self.source().obeys_prophetic_iter_laws(),
            self.source().decrease() is Some,
        ensures
            self@ == EncoderState::fresh() ==> symbols@ == encoded(self.source().remaining()),
            symbols@ == if self@.finished {
                Seq::<char>::empty()
            } else {
                encoded(self@.consumed + self.source().remaining()).skip(self@.emitted as int)
            },
    {
        let ghost start = self@;
        let ghost origin = self.source();
        let mut producer = self;
        let mut symbols: Vec<char> = Vec::new();
        proof {
            assert(start == EncoderState::fresh() ==> start.consumed + origin.remaining()
                =~= origin.remaining());
            if !start.finished {
                lemma_emitted_in_range(start, origin.remaining());
            }
        }
        loop
            invariant
                producer@.wf(),
                producer.source().obeys_prophetic_iter_laws(),
                producer.source().decrease() is Some,
                producer@.consumed + producer.source().remaining() == start.consumed
                    + origin.remaining(),
                producer@.finished && !start.finished ==> producer@.emitted == encoded(
                    start.consumed + origin.remaining(),
                ).len(),
                !start.finished ==> start.emitted <= producer@.emitted <= encoded(
                    start.consumed + origin.remaining(),
                ).len(),
                !start.finished ==> symbols@ == encoded(
                    start.consumed + origin.remaining(),
                ).subrange(start.emitted as int, producer@.emitted as int),
                start.finished ==> producer@.finished && symbols@.len() == 0,
            ensures
                symbols@ == if start.finished {
                    Seq::<char>::empty()
                } else {
                    encoded(start.consumed + origin.remaining()).skip(start.emitted as int)
                },
            decreases
                    (if producer@.finished {
                        0nat
                    } else {
                        1nat
                    }),
                    producer.source().decrease()->0,
                    (if fetches(producer@.phase) {
                        0nat
                    } else {
                        1nat
                    }),
        {
            let ghost before = producer@;
            let ghost pending = producer.source().remaining();
            match producer.next() {
                Some(symbol) => {
                    symbols.push(symbol);
                    proof {
                        let all = encoded(start.consumed + origin.remaining());
                        assert(symbols@ =~= all.subrange(
                            start.emitted as int,
                            producer@.emitted as int,
                        ));
                        if producer@.finished {
                            assert(producer@.consumed =~= start.consumed + origin.remaining());
                        }
                    }
                },
                None => {
                    proof {
                        let all = encoded(start.consumed + origin.remaining());
                        if !start.finished {
                            assert(all.subrange(start.emitted as int, all.len() as int) =~= all.skip(
                                start.emitted as int,
                            ));
                        } else {
                            assert(symbols@ =~= Seq::<char>::empty());
                        }
                    }
                    break ;
                },
            }
        }
        symbols
    }
}

/// Turns a byte source into its symbols.
pub trait IntoCrockfordEncoder<I: Iterator<Item = u8>>: Sized {
    /// The byte source that `self` is.
    spec fn byte_source(self) -> I;

    /// Starts encoding the bytes of `self`.
    fn crockford_encoded(self) -> (symbols: CrockfordEncoderIterator<I>)
        ensures
            symbols.source() == self.byte_source(),
            symbols@ == EncoderState::fresh(),
            symbols@.wf(),
    ;
}

impl<I: Iterator<Item = u8>> IntoCrockfordEncoder<I> for I {
    open spec fn byte_source(self) -> I {
        self
    }

    fn crockford_encoded(self) -> (symbols: CrockfordEncoderIterator<I>) {
        CrockfordEncoder::new(self).into_iter()
    }
}

} // verus!
