//! The fixed-width codec: an unsigned integer as base-32 digits, most
//! significant digit first, in a buffer whose length the caller chooses.

use crate::alphabet::{
    crockford_index, is_symbol, lemma_symbol_value_of_table, symbol_value, CROCKFORD_ALPHABET,
};
use crate::error::CrockfordDecodeError;
use num::{PrimInt, ToPrimitive};
use vstd::arithmetic::div_mod::{
    lemma_add_mod_noop_right, lemma_breakdown, lemma_div_denominator, lemma_fundamental_div_mod,
    lemma_mod_mod, lemma_mod_multiples_vanish, lemma_mul_mod_noop_general, lemma_small_mod,
    lemma_truncate_middle,
};
use vstd::arithmetic::power2::{
    lemma2_to64, lemma_pow2_adds, lemma_pow2_pos, lemma_pow2_strictly_increases, pow2,
};
use vstd::prelude::*;

verus! {

/// The number of values of a `u128`: two to the power 128.
pub open spec fn wide_modulus() -> int {
    u128::MAX + 1
}

/// What the digit at `place`, counted from the right, is worth: 32 to the
/// power `place`.
pub open spec fn place_value(place: nat) -> nat {
    pow2(5 * place)
}

/// The base-32 digit of `value` at `place`, counted from the right.
pub open spec fn base32_digit(value: int, place: nat) -> int {
    (value / place_value(place) as int) % 32
}

/// The `width` lowest base-32 digits of `value` as symbols, most significant
/// first. Digits of `value` above them are left out.
pub open spec fn encoded_integer(value: int, width: nat) -> Seq<char> {
    Seq::new(width, |i: int| CROCKFORD_ALPHABET@[base32_digit(value, (width - 1 - i) as nat)])
}

/// The number that the symbols spell out in base 32, most significant digit
/// first.
pub open spec fn integer_value(symbols: Seq<char>) -> nat
    decreases symbols.len(),
{
    if symbols.len() == 0 {
        0
    } else {
        symbol_value(symbols[0])->0 as nat * place_value((symbols.len() - 1) as nat)
            + integer_value(symbols.drop_first())
    }
}

/// An unsigned integer type that the codec reads and writes.
pub trait UnsignedInteger: Sized + Copy {
    /// How many values the type has: one more than its largest.
    spec fn modulus() -> int;

    /// The number that `self` is.
    spec fn value(self) -> int;

    /// Every value lies below the modulus, and the modulus divides two to the
    /// power 128.
    proof fn lemma_range(self)
        ensures
            0 <= self.value() < Self::modulus(),
            wide_modulus() % Self::modulus() == 0,
    ;

    /// `self` as a `u128`.
    fn widen(self) -> (wide: u128)
        ensures
            wide == self.value(),
    ;

    /// The value of this type that `wide` is congruent to.
    fn truncate(wide: u128) -> (word: Self)
        ensures
            word.value() == wide as int % Self::modulus(),
    ;
}

impl UnsignedInteger for u8 {
    open spec fn modulus() -> int {
        0x100
    }

    open spec fn value(self) -> int {
        self as int
    }

    proof fn lemma_range(self) {
    }

    fn widen(self) -> (wide: u128) {
        self as u128
    }

    fn truncate(wide: u128) -> (word: Self) {
        assert(wide as u8 == wide % 0x100) by (bit_vector);
        #[verifier::truncate]
        (wide as u8)
    }
}

impl UnsignedInteger for u16 {
    open spec fn modulus() -> int {
        0x1_0000
    }

    open spec fn value(self) -> int {
        self as int
    }

    proof fn lemma_range(self) {
    }

    fn widen(self) -> (wide: u128) {
        self as u128
    }

    fn truncate(wide: u128) -> (word: Self) {
        assert(wide as u16 == wide % 0x1_0000) by (bit_vector);
        #[verifier::truncate]
        (wide as u16)
    }
}

impl UnsignedInteger for u32 {
    open spec fn modulus() -> int {
        0x1_0000_0000
    }

    open spec fn value(self) -> int {
        self as int
    }

    proof fn lemma_range(self) {
    }

    fn widen(self) -> (wide: u128) {
        self as u128
    }

    fn truncate(wide: u128) -> (word: Self) {
        assert(wide as u32 == wide % 0x1_0000_0000) by (bit_vector);
        #[verifier::truncate]
        (wide as u32)
    }
}

impl UnsignedInteger for u64 {
    open spec fn modulus() -> int {
        0x1_0000_0000_0000_0000
    }

    open spec fn value(self) -> int {
        self as int
    }

    proof fn lemma_range(self) {
    }

    fn widen(self) -> (wide: u128) {
        self as u128
    }

    fn truncate(wide: u128) -> (word: Self) {
        assert(wide as u64 == wide % 0x1_0000_0000_0000_0000) by (bit_vector);
        #[verifier::truncate]
        (wide as u64)
    }
}

impl UnsignedInteger for u128 {
    open spec fn modulus() -> int {
        wide_modulus()
    }

    open spec fn value(self) -> int {
        self as int
    }

    proof fn lemma_range(self) {
    }

    fn widen(self) -> (wide: u128) {
        self
    }

    fn truncate(wide: u128) -> (word: Self) {
        wide
    }
}

impl UnsignedInteger for usize {
    open spec fn modulus() -> int {
        usize::MAX + 1
    }

    open spec fn value(self) -> int {
        self as int
    }

    proof fn lemma_range(self) {
    }

    fn widen(self) -> (wide: u128) {
        self as u128
    }

    fn truncate(wide: u128) -> (word: Self) {
        let reduced = wide % (usize::MAX as u128 + 1);
        reduced as usize
    }
}

/// `num::PrimInt::unsigned_shr` on a `u128`: the bits of `x` moved `n` places
/// towards the least significant end, zeros moving in at the other. The
/// outside function is `x >> n`, which may not be asked for 128 places or
/// more.
#[verifier::external_body]
fn unsigned_shr(x: u128, n: u32) -> (shifted: u128)
    requires
        n < 128,
    ensures
        shifted == x >> n,
{
    PrimInt::unsigned_shr(x, n)
}

/// `num::PrimInt::unsigned_shl` on a `u128`: the bits of `x` moved `n` places
/// towards the most significant end, zeros moving in at the other, the bits
/// moved out at the top lost. The outside function is `x << n`, which may not
/// be asked for 128 places or more.
#[verifier::external_body]
fn unsigned_shl(x: u128, n: u32) -> (shifted: u128)
    requires
        n < 128,
    ensures
        shifted == x << n,
{
    PrimInt::unsigned_shl(x, n)
}

/// `num::ToPrimitive::to_u8` on a `u128`: `x` as a `u8` where it is at most
/// 255, and `None` where it is larger.
#[verifier::external_body]
fn to_u8(x: u128) -> (byte: Option<u8>)
    ensures
        byte == if x <= 255 {
            Some(x as u8)
        } else {
            None::<u8>
        },
{
    ToPrimitive::to_u8(&x)
}

/// Writes the base-32 digits of `x` into `buffer`, most significant first,
/// filling every position. Digits of `x` that the buffer has no room for are
/// left out.
pub fn encode<N: UnsignedInteger>(x: N, buffer: &mut [char])
    ensures
        final(buffer)@ == encoded_integer(x.value(), old(buffer)@.len()),
{
    let ghost value = x.value();
    let ghost width = buffer@.len();
    let mut rest: u128 = x.widen();
    let mut i: usize = buffer.len();
    proof {
        x.lemma_range();
        lemma2_to64();
        assert(place_value(0) == 1);
        assert((width - i) as nat == 0);
    }
    while i > 0
        invariant
            i <= width,
            buffer@.len() == width == old(buffer)@.len(),
            0 <= value,
            rest == value / place_value((width - i) as nat) as int,
            forall|j: int|
                i <= j < width ==> #[trigger] buffer@[j] == CROCKFORD_ALPHABET@[base32_digit(
                    value,
                    (width - 1 - j) as nat,
                )],
        decreases i,
    {
        i = i - 1;
        let low = rest & 0b00011111;
        proof {
            assert(rest & 0b00011111 == rest % 32) by (bit_vector);
        }
        let masked = to_u8(low).expect(
            "operation will always succeed as 0b00011111 is less than u8::MAX",
        );
        buffer[i] = CROCKFORD_ALPHABET[masked as usize];
        let ghost before = rest;
        rest = unsigned_shr(rest, 5);
        proof {
            let place = (width - 1 - i) as nat;
            assert(before >> 5u32 == before / 32) by (bit_vector);
            lemma2_to64();
            lemma_pow2_pos(5 * place);
            lemma_pow2_adds(5 * place, 5);
            assert(place_value(place + 1) == place_value(place) * 32);
            lemma_div_denominator(value, place_value(place) as int, 32);
        }
    }
    proof {
        assert(buffer@ =~= encoded_integer(value, width));
    }
}

/// Two to the power 128 is the number of values of a `u128`.
proof fn lemma_wide_modulus()
    ensures
        pow2(128) == wide_modulus(),
{
    lemma2_to64();
    lemma_pow2_adds(64, 64);
}

/// Moving the bits of `x` up by `shift` places multiplies it by two to the
/// power `shift`, modulo two to the power 128.
proof fn lemma_shl_is_mul(x: u128, shift: u32)
    requires
        shift < 128,
    ensures
        (x << shift) as int == (x as int * pow2(shift as nat) as int) % wide_modulus(),
    decreases shift,
{
    lemma2_to64();
    if shift == 0 {
        assert(x << 0u32 == x) by (bit_vector);
        lemma_small_mod(x as nat, wide_modulus() as nat);
    } else {
        let less = (shift - 1) as u32;
        let lower = x << less;
        let scaled = x as int * pow2(less as nat) as int;
        let half: int = 0x8000_0000_0000_0000_0000_0000_0000_0000;
        lemma_shl_is_mul(x, less);
        assert(x << shift == (x << less) << 1u32) by (bit_vector)
            requires
                less + 1 == shift,
                shift < 128,
        ;
        assert(lower << 1u32 == 2 * (lower & 0x7FFF_FFFF_FFFF_FFFF_FFFF_FFFF_FFFF_FFFF))
            by (bit_vector);
        assert(lower & 0x7FFF_FFFF_FFFF_FFFF_FFFF_FFFF_FFFF_FFFF == lower
            % 0x8000_0000_0000_0000_0000_0000_0000_0000) by (bit_vector);
        lemma_truncate_middle(lower as int, 2, half);
        assert((x << shift) as int == (2 * lower) % wide_modulus());
        lemma_mul_mod_noop_general(2, scaled, wide_modulus());
        lemma_pow2_adds(less as nat, 1);
        assert(2 * scaled == x as int * pow2(shift as nat) as int) by (nonlinear_arith)
            requires
                scaled == x as int * pow2(less as nat) as int,
                pow2(shift as nat) == pow2(less as nat) * 2,
        ;
    }
}

/// Symbols spell out a number below 32 to the power of their count.
pub proof fn lemma_integer_value_bound(symbols: Seq<char>)
    requires
        forall|j: int| 0 <= j < symbols.len() ==> is_symbol(#[trigger] symbols[j]),
    ensures
        integer_value(symbols) < place_value(symbols.len()),
    decreases symbols.len(),
{
    lemma2_to64();
    if symbols.len() > 0 {
        let rest = symbols.drop_first();
        let weight = place_value(rest.len());
        let digit = symbol_value(symbols[0])->0 as nat;
        assert forall|j: int| 0 <= j < rest.len() implies is_symbol(#[trigger] rest[j]) by {
            assert(rest[j] == symbols[j + 1]);
        }
        lemma_integer_value_bound(rest);
        assert(is_symbol(symbols[0]));
        lemma_pow2_adds(5 * rest.len(), 5);
        assert(place_value(symbols.len()) == weight * 32);
        assert(digit * weight + weight <= 32 * weight) by (nonlinear_arith)
            requires
                digit <= 31,
        ;
    }
}

/// One step of reading digits from the right: a digit at `place` is added to
/// the number `total` of the digits to its right by moving it up five bits a
/// place and setting its bits in `acc`. From place 26 on it adds nothing that
/// a `u128` holds.
proof fn lemma_accumulate(acc: u128, total: int, digit: u8, place: nat)
    requires
        digit < 32,
        0 <= total < place_value(place),
        acc == total % wide_modulus(),
    ensures
        place < 26 ==> (acc | (digit as u128) << ((5 * place) as u32)) == (digit * place_value(place)
            + total) % wide_modulus(),
        place >= 26 ==> acc == (digit * place_value(place) + total) % wide_modulus(),
{
    let weight = place_value(place) as int;
    let modulus = wide_modulus();
    lemma_wide_modulus();
    lemma_pow2_pos(5 * place);
    if place < 26 {
        let shift = (5 * place) as u32;
        let wide = digit as u128;
        let moved = wide << shift;
        lemma_pow2_strictly_increases(5 * place, 128);
        lemma_small_mod(total as nat, modulus as nat);
        lemma_shl_is_mul(wide, shift);
        lemma_shl_is_mul(1, shift);
        lemma_small_mod(weight as nat, modulus as nat);
        assert(1 * weight == weight);
        assert(acc < 1u128 << shift);
        assert(acc | (wide << shift) == acc + (wide << shift)) by (bit_vector)
            requires
                shift < 128,
                acc < 1u128 << shift,
        ;
        lemma_add_mod_noop_right(total, digit * weight, modulus);
        lemma_small_mod((acc + moved) as nat, modulus as nat);
    } else {
        let extra = pow2((5 * place - 128) as nat) as int;
        lemma_pow2_adds(128, (5 * place - 128) as nat);
        assert(digit * weight == modulus * (digit * extra)) by (nonlinear_arith)
            requires
                weight == modulus * extra,
        ;
        lemma_mod_multiples_vanish(digit * extra, total, modulus);
    }
}

/// Reads `buffer` as the base-32 digits of a number, most significant first.
///
/// The digits are read from the right, so of several characters that are no
/// symbols the last one is reported. A number too large for `N` loses its
/// high bits.
pub fn decode<N: UnsignedInteger>(buffer: &[char]) -> (result: Result<N, CrockfordDecodeError>)
    ensures
        match result {
            Ok(word) => {
                &&& forall|j: int| 0 <= j < buffer@.len() ==> is_symbol(#[trigger] buffer@[j])
                &&& word.value() == integer_value(buffer@) as int % N::modulus()
            },
            Err(error) => {
                &&& error.slice_position < buffer@.len()
                &&& error.character == buffer@[error.slice_position as int]
                &&& !is_symbol(error.character)
                &&& forall|j: int|
                    error.slice_position < j < buffer@.len() ==> is_symbol(#[trigger] buffer@[j])
            },
        },
{
    let length: usize = buffer.len();
    let mut acc: u128 = 0;
    let mut i: usize = 0;
    proof {
        lemma_wide_modulus();
        assert(buffer@.skip(length as int).len() == 0);
    }
    while i < length
        invariant
            length == buffer@.len(),
            i <= length,
            forall|j: int| length - i <= j < length ==> is_symbol(#[trigger] buffer@[j]),
            acc == integer_value(buffer@.skip(length - i)) as int % wide_modulus(),
        decreases length - i,
    {
        let c = buffer[length - 1 - i];
        if let Some(bits) = crockford_index(c) {
            let ghost right = buffer@.skip(length - i);
            let ghost all = buffer@.skip(length - i - 1);
            proof {
                assert(all.drop_first() =~= right);
                assert(all[0] == c);
                assert forall|j: int| 0 <= j < right.len() implies is_symbol(
                    #[trigger] right[j],
                ) by {
                    assert(right[j] == buffer@[length - i + j]);
                }
                lemma_integer_value_bound(right);
                lemma_accumulate(acc, integer_value(right) as int, bits, i as nat);
            }
            if i < 26 {
                let n: u128 = bits as u128;
                let shifted = unsigned_shl(n, 5 * (i as u32));
                acc = acc | shifted;
            }
        } else {
            return Err(CrockfordDecodeError { character: c, slice_position: length - i - 1 });
        }
        i = i + 1;
    }
    let word = N::truncate(acc);
    proof {
        let total = integer_value(buffer@) as int;
        let modulus = N::modulus();
        let factor = wide_modulus() / modulus;
        assert(buffer@.skip(0) =~= buffer@);
        word.lemma_range();
        lemma_fundamental_div_mod(wide_modulus(), modulus);
        assert(wide_modulus() == modulus * factor);
        assert(factor > 0) by (nonlinear_arith)
            requires
                wide_modulus() == modulus * factor,
                wide_modulus() > 0,
                modulus > 0,
        ;
        lemma_mod_mod(total, modulus, factor);
    }
    Ok(word)
}

/// The symbols written for `value` into `width` places spell out `value`
/// without its digits above those places.
pub proof fn lemma_encoded_integer_value(value: int, width: nat)
    requires
        0 <= value,
    ensures
        forall|j: int| 0 <= j < width ==> is_symbol(#[trigger] encoded_integer(value, width)[j]),
        integer_value(encoded_integer(value, width)) == value % place_value(width) as int,
    decreases width,
{
    let symbols = encoded_integer(value, width);
    lemma2_to64();
    assert forall|j: int| 0 <= j < width implies is_symbol(#[trigger] symbols[j]) by {
        lemma_symbol_value_of_table(base32_digit(value, (width - 1 - j) as nat));
    }
    if width == 0 {
    } else {
        let below = (width - 1) as nat;
        let weight = place_value(below) as int;
        assert(symbols.drop_first() =~= encoded_integer(value, below));
        lemma_encoded_integer_value(value, below);
        lemma_symbol_value_of_table(base32_digit(value, below));
        lemma_pow2_pos(5 * below);
        lemma_pow2_adds(5 * below, 5);
        assert(place_value(width) == weight * 32);
        lemma_breakdown(value, weight, 32);
        assert(base32_digit(value, below) * weight == weight * ((value / weight) % 32))
            by (nonlinear_arith)
            requires
                base32_digit(value, below) == (value / weight) % 32,
        ;
    }
}

/// Round trip: a value that `width` base-32 digits can hold is read back
/// from the symbols written for it.
pub proof fn lemma_integer_round_trip<N: UnsignedInteger>(x: N, width: nat)
    requires
        x.value() < place_value(width),
    ensures
        forall|j: int|
            0 <= j < width ==> is_symbol(#[trigger] encoded_integer(x.value(), width)[j]),
        integer_value(encoded_integer(x.value(), width)) as int % N::modulus() == x.value(),
{
    x.lemma_range();
    lemma_encoded_integer_value(x.value(), width);
    lemma_small_mod(x.value() as nat, place_value(width));
    lemma_small_mod(x.value() as nat, N::modulus() as nat);
}

} // verus!
