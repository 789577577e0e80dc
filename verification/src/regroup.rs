//! The model behind the streaming codec.
//!
//! A byte sequence and a symbol sequence are two groupings of one bit string,
//! most significant bit first: bytes cut it every eight bits, symbols every
//! five. Past the end of the input every bit is zero, so a last unit that the
//! input fills only in part is completed with zero bits.

use crate::alphabet::{
    is_symbol, lemma_symbol_value_of_table, lemma_table_of_symbol_value, symbol_value,
    CROCKFORD_ALPHABET,
};
use crate::error::CrockfordDecodeError;
use vstd::prelude::*;

verus! {

/// Bit `place` of `unit`, counted from the least significant bit: 0 or 1.
pub open spec fn bit_of(unit: u8, place: u8) -> u8 {
    (unit >> place) & 1
}

/// Byte `index` of the input, zero past its end.
pub open spec fn byte_or_zero(bytes: Seq<u8>, index: int) -> u8 {
    if 0 <= index < bytes.len() {
        bytes[index]
    } else {
        0
    }
}

/// Bit `k` of the bit string that `bytes` spell out.
pub open spec fn bit_of_bytes(bytes: Seq<u8>, k: int) -> u8 {
    bit_of(byte_or_zero(bytes, k / 8), (7 - k % 8) as u8)
}

/// The value of symbol `i`: bits `5 * i` to `5 * i + 4` of the byte stream.
pub open spec fn quintet(bytes: Seq<u8>, i: int) -> int {
    16 * bit_of_bytes(bytes, 5 * i) + 8 * bit_of_bytes(bytes, 5 * i + 1) + 4 * bit_of_bytes(
        bytes,
        5 * i + 2,
    ) + 2 * bit_of_bytes(bytes, 5 * i + 3) + bit_of_bytes(bytes, 5 * i + 4)
}

/// How many symbols `byte_len` bytes encode to: every bit is carried, and the
/// last symbol is completed with zero bits.
pub open spec fn encoded_len(byte_len: nat) -> nat {
    ((8 * byte_len + 4) / 5) as nat
}

/// The symbols that `bytes` encode to.
pub open spec fn encoded(bytes: Seq<u8>) -> Seq<char> {
    Seq::new(encoded_len(bytes.len()), |i: int| CROCKFORD_ALPHABET@[quintet(bytes, i)])
}

/// The five-bit value of each symbol, zero for a character that is none.
pub open spec fn values_of(symbols: Seq<char>) -> Seq<u8> {
    Seq::new(
        symbols.len(),
        |i: int|
            match symbol_value(symbols[i]) {
                Some(value) => value,
                None => 0u8,
            },
    )
}

/// Value `index` of the input, zero past its end.
pub open spec fn quintet_or_zero(values: Seq<u8>, index: int) -> u8 {
    if 0 <= index < values.len() {
        values[index]
    } else {
        0
    }
}

/// Bit `k` of the bit string that the five-bit `values` spell out.
pub open spec fn bit_of_quintets(values: Seq<u8>, k: int) -> u8 {
    bit_of(quintet_or_zero(values, k / 5), (4 - k % 5) as u8)
}

/// Byte `i` of the output: bits `8 * i` to `8 * i + 7` of the symbol stream.
pub open spec fn octet(values: Seq<u8>, i: int) -> int {
    128 * bit_of_quintets(values, 8 * i) + 64 * bit_of_quintets(values, 8 * i + 1)
        + 32 * bit_of_quintets(values, 8 * i + 2) + 16 * bit_of_quintets(values, 8 * i + 3)
        + 8 * bit_of_quintets(values, 8 * i + 4) + 4 * bit_of_quintets(values, 8 * i + 5)
        + 2 * bit_of_quintets(values, 8 * i + 6) + bit_of_quintets(values, 8 * i + 7)
}

/// How many bytes `symbol_len` symbols decode to: every bit is carried, and
/// the last byte is completed with zero bits.
pub open spec fn decoded_len(symbol_len: nat) -> nat {
    ((5 * symbol_len + 7) / 8) as nat
}

/// The index of the first character that is no symbol, or the length of
/// `symbols` when all of them are.
pub open spec fn first_invalid(symbols: Seq<char>) -> nat
    decreases symbols.len(),
{
    if symbols.len() == 0 || !is_symbol(symbols[0]) {
        0
    } else {
        1 + first_invalid(symbols.drop_first())
    }
}

/// `index` as a `usize`, and `usize::MAX` where it is too large for one.
pub open spec fn saturated(index: int) -> usize {
    if index <= usize::MAX {
        index as usize
    } else {
        usize::MAX
    }
}

/// The error for the character at `index`. An index that no `usize` holds is
/// reported as `usize::MAX`.
pub open spec fn decode_error_at(symbols: Seq<char>, index: int) -> CrockfordDecodeError {
    CrockfordDecodeError { character: symbols[index], slice_position: saturated(index) }
}

/// How many bytes a decoder hands out for `symbols`: all that they decode to,
/// or those that the symbols before the first bad character fill completely.
pub open spec fn decoded_bytes(symbols: Seq<char>) -> nat {
    let stop = first_invalid(symbols);
    if stop == symbols.len() {
        decoded_len(stop)
    } else {
        (5 * stop / 8) as nat
    }
}

/// What a decoder yields for `symbols`, item by item.
///
/// Where every character is a symbol, these are the decoded bytes. Otherwise
/// they are the bytes that the symbols before the first bad character fill
/// completely, and then the error for that character.
pub open spec fn decoded_stream(symbols: Seq<char>) -> Seq<Result<u8, CrockfordDecodeError>> {
    let stop = first_invalid(symbols);
    let values = values_of(symbols);
    if stop == symbols.len() {
        Seq::new(decoded_len(stop), |i: int| Ok(octet(values, i) as u8))
    } else {
        Seq::new(
            (5 * stop / 8 + 1) as nat,
            |i: int|
                if i < 5 * stop / 8 {
                    Ok(octet(values, i) as u8)
                } else {
                    Err(decode_error_at(symbols, stop as int))
                },
        )
    }
}

/// What `symbols` decode to as a whole: the bytes, or the error for the first
/// character that is no symbol.
pub open spec fn decoded(symbols: Seq<char>) -> Result<Seq<u8>, CrockfordDecodeError> {
    let stop = first_invalid(symbols);
    if stop == symbols.len() {
        Ok(Seq::new(decoded_len(stop), |i: int| octet(values_of(symbols), i) as u8))
    } else {
        Err(decode_error_at(symbols, stop as int))
    }
}

/// Division by eight with a known quotient and remainder.
pub proof fn lemma_div8(x: int, quotient: int, remainder: int)
    requires
        x == 8 * quotient + remainder,
        0 <= remainder < 8,
    ensures
        x / 8 == quotient,
        x % 8 == remainder,
{
}

/// Division by five with a known quotient and remainder.
pub proof fn lemma_div5(x: int, quotient: int, remainder: int)
    requires
        x == 5 * quotient + remainder,
        0 <= remainder < 5,
    ensures
        x / 5 == quotient,
        x % 5 == remainder,
{
}

/// Bit `8 * index + 7 - place` of the stream is bit `place` of byte `index`.
pub proof fn lemma_byte_bit(bytes: Seq<u8>, k: int, index: int, place: u8)
    requires
        place < 8,
        k == 8 * index + 7 - place,
    ensures
        bit_of_bytes(bytes, k) == bit_of(byte_or_zero(bytes, index), place),
{
    lemma_div8(k, index, 7 - place);
}

/// Bit `5 * index + 4 - place` of the stream is bit `place` of value `index`.
pub proof fn lemma_quintet_bit(values: Seq<u8>, k: int, index: int, place: u8)
    requires
        place < 5,
        k == 5 * index + 4 - place,
    ensures
        bit_of_quintets(values, k) == bit_of(quintet_or_zero(values, index), place),
{
    lemma_div5(k, index, 4 - place);
}

/// A bit is 0 or 1, and a byte is the sum of its weighted bits.
pub proof fn lemma_bits_of_byte(unit: u8)
    by (bit_vector)
    ensures
        bit_of(unit, 0) <= 1,
        bit_of(unit, 1) <= 1,
        bit_of(unit, 2) <= 1,
        bit_of(unit, 3) <= 1,
        bit_of(unit, 4) <= 1,
        bit_of(unit, 5) <= 1,
        bit_of(unit, 6) <= 1,
        bit_of(unit, 7) <= 1,
        unit == 128 * bit_of(unit, 7) + 64 * bit_of(unit, 6) + 32 * bit_of(unit, 5) + 16 * bit_of(
            unit,
            4,
        ) + 8 * bit_of(unit, 3) + 4 * bit_of(unit, 2) + 2 * bit_of(unit, 1) + bit_of(unit, 0),
{
}

/// The bits of a five-bit value are the bits it was summed from.
pub proof fn lemma_bits_of_quintet(b4: u8, b3: u8, b2: u8, b1: u8, b0: u8)
    by (bit_vector)
    requires
        b4 <= 1,
        b3 <= 1,
        b2 <= 1,
        b1 <= 1,
        b0 <= 1,
    ensures
        bit_of((16 * b4 + 8 * b3 + 4 * b2 + 2 * b1 + b0) as u8, 4) == b4,
        bit_of((16 * b4 + 8 * b3 + 4 * b2 + 2 * b1 + b0) as u8, 3) == b3,
        bit_of((16 * b4 + 8 * b3 + 4 * b2 + 2 * b1 + b0) as u8, 2) == b2,
        bit_of((16 * b4 + 8 * b3 + 4 * b2 + 2 * b1 + b0) as u8, 1) == b1,
        bit_of((16 * b4 + 8 * b3 + 4 * b2 + 2 * b1 + b0) as u8, 0) == b0,
{
}

/// Zero has no bit set.
pub proof fn lemma_bits_of_zero(place: u8)
    by (bit_vector)
    ensures
        bit_of(0, place) == 0,
{
}

/// Every bit of the byte stream is 0 or 1.
pub proof fn lemma_bit_of_bytes_bound(bytes: Seq<u8>, k: int)
    requires
        0 <= k,
    ensures
        bit_of_bytes(bytes, k) <= 1,
{
    lemma_bits_of_byte(byte_or_zero(bytes, k / 8));
}

/// A symbol value is below 32.
pub proof fn lemma_quintet_bound(bytes: Seq<u8>, i: int)
    requires
        0 <= i,
    ensures
        0 <= quintet(bytes, i) < 32,
{
    lemma_bit_of_bytes_bound(bytes, 5 * i);
    lemma_bit_of_bytes_bound(bytes, 5 * i + 1);
    lemma_bit_of_bytes_bound(bytes, 5 * i + 2);
    lemma_bit_of_bytes_bound(bytes, 5 * i + 3);
    lemma_bit_of_bytes_bound(bytes, 5 * i + 4);
}

/// `first_invalid` is the one index below which every character is a symbol
/// and at which, if it lies inside `symbols`, stands a character that is none.
pub proof fn lemma_first_invalid(symbols: Seq<char>)
    ensures
        first_invalid(symbols) <= symbols.len(),
        forall|j: int| 0 <= j < first_invalid(symbols) ==> is_symbol(#[trigger] symbols[j]),
        first_invalid(symbols) < symbols.len() ==> !is_symbol(
            symbols[first_invalid(symbols) as int],
        ),
    decreases symbols.len(),
{
    if symbols.len() == 0 || !is_symbol(symbols[0]) {
    } else {
        let rest = symbols.drop_first();
        lemma_first_invalid(rest);
        assert forall|j: int| 0 <= j < first_invalid(symbols) implies is_symbol(
            #[trigger] symbols[j],
        ) by {
            if j > 0 {
                assert(symbols[j] == rest[j - 1]);
            }
        }
        if first_invalid(symbols) < symbols.len() {
            assert(symbols[first_invalid(symbols) as int] == rest[first_invalid(rest) as int]);
        }
    }
}

/// An index with only symbols before it, and none at it, is `first_invalid`.
pub proof fn lemma_first_invalid_is(symbols: Seq<char>, stop: int)
    requires
        0 <= stop <= symbols.len(),
        forall|j: int| 0 <= j < stop ==> is_symbol(#[trigger] symbols[j]),
        stop < symbols.len() ==> !is_symbol(symbols[stop]),
    ensures
        first_invalid(symbols) == stop,
    decreases symbols.len(),
{
    if stop == 0 {
    } else {
        let rest = symbols.drop_first();
        assert(is_symbol(symbols[0]));
        assert forall|j: int| 0 <= j < stop - 1 implies is_symbol(#[trigger] rest[j]) by {
            assert(rest[j] == symbols[j + 1]);
        }
        if stop < symbols.len() {
            assert(rest[stop - 1] == symbols[stop]);
        }
        lemma_first_invalid_is(rest, stop - 1);
    }
}

/// Every character of an encoding is a symbol, and stands for the value it
/// was looked up by.
pub proof fn lemma_encoded_values(bytes: Seq<u8>)
    ensures
        encoded(bytes).len() == encoded_len(bytes.len()),
        first_invalid(encoded(bytes)) == encoded(bytes).len(),
        forall|i: int|
            0 <= i < encoded(bytes).len() ==> #[trigger] values_of(encoded(bytes))[i] == quintet(
                bytes,
                i,
            ),
{
    let symbols = encoded(bytes);
    assert forall|i: int| 0 <= i < symbols.len() implies is_symbol(#[trigger] symbols[i])
        && values_of(symbols)[i] == quintet(bytes, i) by {
        lemma_quintet_bound(bytes, i);
        lemma_symbol_value_of_table(quintet(bytes, i));
    }
    lemma_first_invalid_is(symbols, symbols.len() as int);
}

/// The symbols of an encoding spell out the bit string of the bytes.
pub proof fn lemma_encoded_bits(bytes: Seq<u8>, k: int)
    requires
        0 <= k,
    ensures
        bit_of_quintets(values_of(encoded(bytes)), k) == bit_of_bytes(bytes, k),
{
    let symbols = encoded(bytes);
    let values = values_of(symbols);
    let i = k / 5;
    let place = (4 - k % 5) as u8;
    lemma_encoded_values(bytes);
    lemma_quintet_bit(values, k, i, place);
    if i < symbols.len() {
        let b4 = bit_of_bytes(bytes, 5 * i);
        let b3 = bit_of_bytes(bytes, 5 * i + 1);
        let b2 = bit_of_bytes(bytes, 5 * i + 2);
        let b1 = bit_of_bytes(bytes, 5 * i + 3);
        let b0 = bit_of_bytes(bytes, 5 * i + 4);
        lemma_bit_of_bytes_bound(bytes, 5 * i);
        lemma_bit_of_bytes_bound(bytes, 5 * i + 1);
        lemma_bit_of_bytes_bound(bytes, 5 * i + 2);
        lemma_bit_of_bytes_bound(bytes, 5 * i + 3);
        lemma_bit_of_bytes_bound(bytes, 5 * i + 4);
        lemma_bits_of_quintet(b4, b3, b2, b1, b0);
        assert(values[i] == quintet(bytes, i));
        assert(values[i] == (16 * b4 + 8 * b3 + 4 * b2 + 2 * b1 + b0) as u8);
    } else {
        assert(5 * symbols.len() >= 8 * bytes.len());
        assert(k / 8 >= bytes.len());
        lemma_bits_of_zero(place);
        lemma_bits_of_zero((7 - k % 8) as u8);
    }
}

/// Byte `i` of the decoded encoding is byte `i` of the input, zero past its
/// end.
pub proof fn lemma_octet_of_encoded(bytes: Seq<u8>, i: int)
    requires
        0 <= i,
    ensures
        octet(values_of(encoded(bytes)), i) == byte_or_zero(bytes, i),
{
    lemma_encoded_bits(bytes, 8 * i);
    lemma_encoded_bits(bytes, 8 * i + 1);
    lemma_encoded_bits(bytes, 8 * i + 2);
    lemma_encoded_bits(bytes, 8 * i + 3);
    lemma_encoded_bits(bytes, 8 * i + 4);
    lemma_encoded_bits(bytes, 8 * i + 5);
    lemma_encoded_bits(bytes, 8 * i + 6);
    lemma_encoded_bits(bytes, 8 * i + 7);
    lemma_byte_bit(bytes, 8 * i, i, 7);
    lemma_byte_bit(bytes, 8 * i + 1, i, 6);
    lemma_byte_bit(bytes, 8 * i + 2, i, 5);
    lemma_byte_bit(bytes, 8 * i + 3, i, 4);
    lemma_byte_bit(bytes, 8 * i + 4, i, 3);
    lemma_byte_bit(bytes, 8 * i + 5, i, 2);
    lemma_byte_bit(bytes, 8 * i + 6, i, 1);
    lemma_byte_bit(bytes, 8 * i + 7, i, 0);
    lemma_bits_of_byte(byte_or_zero(bytes, i));
}

/// Decoding an encoding gives the bytes back, then one zero byte where the
/// last symbol had to be completed with zero bits.
pub proof fn lemma_decoded_encoded(bytes: Seq<u8>)
    ensures
        decoded(encoded(bytes)) is Ok,
        decoded(encoded(bytes))->Ok_0.len() == decoded_len(encoded_len(bytes.len())),
        bytes.len() <= decoded(encoded(bytes))->Ok_0.len() <= bytes.len() + 1,
        forall|i: int|
            0 <= i < decoded(encoded(bytes))->Ok_0.len() ==> #[trigger] decoded(
                encoded(bytes),
            )->Ok_0[i] == byte_or_zero(bytes, i),
{
    let symbols = encoded(bytes);
    let values = values_of(symbols);
    lemma_encoded_values(bytes);
    assert forall|i: int| 0 <= i < decoded_len(symbols.len()) implies octet(values, i)
        == byte_or_zero(bytes, i) by {
        lemma_octet_of_encoded(bytes, i);
    }
}

/// The bits of a byte are the bits it was summed from.
pub proof fn lemma_bits_of_octet(b7: u8, b6: u8, b5: u8, b4: u8, b3: u8, b2: u8, b1: u8, b0: u8)
    by (bit_vector)
    requires
        b7 <= 1,
        b6 <= 1,
        b5 <= 1,
        b4 <= 1,
        b3 <= 1,
        b2 <= 1,
        b1 <= 1,
        b0 <= 1,
    ensures
        bit_of((128 * b7 + 64 * b6 + 32 * b5 + 16 * b4 + 8 * b3 + 4 * b2 + 2 * b1 + b0) as u8, 7)
            == b7,
        bit_of((128 * b7 + 64 * b6 + 32 * b5 + 16 * b4 + 8 * b3 + 4 * b2 + 2 * b1 + b0) as u8, 6)
            == b6,
        bit_of((128 * b7 + 64 * b6 + 32 * b5 + 16 * b4 + 8 * b3 + 4 * b2 + 2 * b1 + b0) as u8, 5)
            == b5,
        bit_of((128 * b7 + 64 * b6 + 32 * b5 + 16 * b4 + 8 * b3 + 4 * b2 + 2 * b1 + b0) as u8, 4)
            == b4,
        bit_of((128 * b7 + 64 * b6 + 32 * b5 + 16 * b4 + 8 * b3 + 4 * b2 + 2 * b1 + b0) as u8, 3)
            == b3,
        bit_of((128 * b7 + 64 * b6 + 32 * b5 + 16 * b4 + 8 * b3 + 4 * b2 + 2 * b1 + b0) as u8, 2)
            == b2,
        bit_of((128 * b7 + 64 * b6 + 32 * b5 + 16 * b4 + 8 * b3 + 4 * b2 + 2 * b1 + b0) as u8, 1)
            == b1,
        bit_of((128 * b7 + 64 * b6 + 32 * b5 + 16 * b4 + 8 * b3 + 4 * b2 + 2 * b1 + b0) as u8, 0)
            == b0,
{
}

/// A five-bit value is the sum of its weighted bits.
pub proof fn lemma_bits_of_value(value: u8)
    by (bit_vector)
    requires
        value < 32,
    ensures
        value == 16 * bit_of(value, 4) + 8 * bit_of(value, 3) + 4 * bit_of(value, 2) + 2 * bit_of(
            value,
            1,
        ) + bit_of(value, 0),
{
}

/// Every bit of the symbol stream is 0 or 1.
pub proof fn lemma_bit_of_quintets_bound(values: Seq<u8>, k: int)
    requires
        0 <= k,
    ensures
        bit_of_quintets(values, k) <= 1,
{
    lemma_bits_of_byte(quintet_or_zero(values, k / 5));
}

/// The bytes that symbols decode to spell out the bit string of the symbols.
pub proof fn lemma_decoded_bits(symbols: Seq<char>, k: int)
    requires
        first_invalid(symbols) == symbols.len(),
        0 <= k,
    ensures
        bit_of_bytes(decoded(symbols)->Ok_0, k) == bit_of_quintets(values_of(symbols), k),
{
    let values = values_of(symbols);
    let bytes = decoded(symbols)->Ok_0;
    let i = k / 8;
    let place = (7 - k % 8) as u8;
    lemma_byte_bit(bytes, k, i, place);
    if i < bytes.len() {
        let b7 = bit_of_quintets(values, 8 * i);
        let b6 = bit_of_quintets(values, 8 * i + 1);
        let b5 = bit_of_quintets(values, 8 * i + 2);
        let b4 = bit_of_quintets(values, 8 * i + 3);
        let b3 = bit_of_quintets(values, 8 * i + 4);
        let b2 = bit_of_quintets(values, 8 * i + 5);
        let b1 = bit_of_quintets(values, 8 * i + 6);
        let b0 = bit_of_quintets(values, 8 * i + 7);
        lemma_bit_of_quintets_bound(values, 8 * i);
        lemma_bit_of_quintets_bound(values, 8 * i + 1);
        lemma_bit_of_quintets_bound(values, 8 * i + 2);
        lemma_bit_of_quintets_bound(values, 8 * i + 3);
        lemma_bit_of_quintets_bound(values, 8 * i + 4);
        lemma_bit_of_quintets_bound(values, 8 * i + 5);
        lemma_bit_of_quintets_bound(values, 8 * i + 6);
        lemma_bit_of_quintets_bound(values, 8 * i + 7);
        lemma_bits_of_octet(b7, b6, b5, b4, b3, b2, b1, b0);
        assert(bytes[i] == octet(values, i) as u8);
        assert(bytes[i] == (128 * b7 + 64 * b6 + 32 * b5 + 16 * b4 + 8 * b3 + 4 * b2 + 2 * b1
            + b0) as u8);
    } else {
        assert(8 * bytes.len() >= 5 * symbols.len());
        assert(k / 5 >= symbols.len());
        lemma_bits_of_zero(place);
        lemma_bits_of_zero((4 - k % 5) as u8);
    }
}

/// A symbol's value is below 32, and zero stands for a character that is no
/// symbol.
pub proof fn lemma_values_bound(symbols: Seq<char>, i: int)
    requires
        0 <= i < symbols.len(),
    ensures
        values_of(symbols)[i] < 32,
        is_symbol(symbols[i]) ==> CROCKFORD_ALPHABET@[values_of(symbols)[i] as int] == symbols[i],
{
    if is_symbol(symbols[i]) {
        lemma_table_of_symbol_value(symbols[i]);
    }
}

/// Symbol `i` of the encoding of what symbols decode to has the value of
/// symbol `i`.
pub proof fn lemma_quintet_of_decoded(symbols: Seq<char>, i: int)
    requires
        first_invalid(symbols) == symbols.len(),
        0 <= i < symbols.len(),
    ensures
        quintet(decoded(symbols)->Ok_0, i) == values_of(symbols)[i],
{
    let values = values_of(symbols);
    let value = values[i];
    lemma_values_bound(symbols, i);
    lemma_bits_of_value(value);
    assert(quintet_or_zero(values, i) == value);
    lemma_decoded_bits(symbols, 5 * i);
    lemma_decoded_bits(symbols, 5 * i + 1);
    lemma_decoded_bits(symbols, 5 * i + 2);
    lemma_decoded_bits(symbols, 5 * i + 3);
    lemma_decoded_bits(symbols, 5 * i + 4);
    lemma_quintet_bit(values, 5 * i, i, 4);
    lemma_quintet_bit(values, 5 * i + 1, i, 3);
    lemma_quintet_bit(values, 5 * i + 2, i, 2);
    lemma_quintet_bit(values, 5 * i + 3, i, 1);
    lemma_quintet_bit(values, 5 * i + 4, i, 0);
}

/// Round trip the other way: symbols that fill whole cycles of eight are the
/// encoding of the bytes that they decode to.
pub proof fn lemma_round_trip_of_symbols(symbols: Seq<char>)
    requires
        first_invalid(symbols) == symbols.len(),
        symbols.len() % 8 == 0,
    ensures
        decoded(symbols) is Ok,
        encoded(decoded(symbols)->Ok_0) == symbols,
{
    let bytes = decoded(symbols)->Ok_0;
    lemma_first_invalid(symbols);
    assert(bytes.len() == decoded_len(symbols.len()));
    assert(encoded(bytes).len() == symbols.len());
    assert forall|i: int| 0 <= i < symbols.len() implies encoded(bytes)[i] == symbols[i] by {
        lemma_quintet_of_decoded(symbols, i);
        lemma_values_bound(symbols, i);
        assert(is_symbol(symbols[i]));
    }
    assert(encoded(bytes) =~= symbols);
}

/// Round trip: bytes that fill whole cycles of five decode from their
/// encoding to themselves.
pub proof fn lemma_round_trip(bytes: Seq<u8>)
    requires
        bytes.len() % 5 == 0,
    ensures
        decoded(encoded(bytes)) == Ok::<Seq<u8>, CrockfordDecodeError>(bytes),
{
    lemma_decoded_encoded(bytes);
    assert(decoded(encoded(bytes))->Ok_0 =~= bytes);
}

} // verus!
