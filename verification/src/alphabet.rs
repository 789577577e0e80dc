//! The symbol table shared by every codec in this crate.

use vstd::prelude::*;

verus! {

/// The 32 symbols in value order: digits, then upper-case letters without
/// `I`, `L`, `O` and `U`. A symbol's position in the table is its value.
pub const CROCKFORD_ALPHABET: [char; 32] = [
    '0', '1', '2', '3', '4', '5', '6', '7', '8', '9', 'A', 'B', 'C', 'D', 'E', 'F', 'G', 'H', 'J',
    'K', 'M', 'N', 'P', 'Q', 'R', 'S', 'T', 'V', 'W', 'X', 'Y', 'Z',
];

/// The five-bit value that `c` stands for, or `None` when `c` is not a symbol.
/// Matching is exact: lower-case letters are not symbols.
pub open spec fn symbol_value(c: char) -> Option<u8> {
    if c == '0' {
        Some(0u8)
    } else if c == '1' {
        Some(1u8)
    } else if c == '2' {
        Some(2u8)
    } else if c == '3' {
        Some(3u8)
    } else if c == '4' {
        Some(4u8)
    } else if c == '5' {
        Some(5u8)
    } else if c == '6' {
        Some(6u8)
    } else if c == '7' {
        Some(7u8)
    } else if c == '8' {
        Some(8u8)
    } else if c == '9' {
        Some(9u8)
    } else if c == 'A' {
        Some(10u8)
    } else if c == 'B' {
        Some(11u8)
    } else if c == 'C' {
        Some(12u8)
    } else if c == 'D' {
        Some(13u8)
    } else if c == 'E' {
        Some(14u8)
    } else if c == 'F' {
        Some(15u8)
    } else if c == 'G' {
        Some(16u8)
    } else if c == 'H' {
        Some(17u8)
    } else if c == 'J' {
        Some(18u8)
    } else if c == 'K' {
        Some(19u8)
    } else if c == 'M' {
        Some(20u8)
    } else if c == 'N' {
        Some(21u8)
    } else if c == 'P' {
        Some(22u8)
    } else if c == 'Q' {
        Some(23u8)
    } else if c == 'R' {
        Some(24u8)
    } else if c == 'S' {
        Some(25u8)
    } else if c == 'T' {
        Some(26u8)
    } else if c == 'V' {
        Some(27u8)
    } else if c == 'W' {
        Some(28u8)
    } else if c == 'X' {
        Some(29u8)
    } else if c == 'Y' {
        Some(30u8)
    } else if c == 'Z' {
        Some(31u8)
    } else {
        None
    }
}

/// Whether `c` is one of the 32 symbols.
pub open spec fn is_symbol(c: char) -> bool {
    symbol_value(c) is Some
}

/// Looks `c` up in the alphabet.
///
/// The result is the position of `c` in [`CROCKFORD_ALPHABET`], and `None`
/// exactly when the table does not hold `c`.
pub fn crockford_index(c: char) -> (index: Option<u8>)
    ensures
        index == symbol_value(c),
        match index {
            Some(value) => value < 32 && CROCKFORD_ALPHABET@[value as int] == c,
            None => forall|value: int| 0 <= value < 32 ==> CROCKFORD_ALPHABET@[value] != c,
        },
{
    match c {
        '0' => Some(0),
        '1' => Some(1),
        '2' => Some(2),
        '3' => Some(3),
        '4' => Some(4),
        '5' => Some(5),
        '6' => Some(6),
        '7' => Some(7),
        '8' => Some(8),
        '9' => Some(9),
        'A' => Some(10),
        'B' => Some(11),
        'C' => Some(12),
        'D' => Some(13),
        'E' => Some(14),
        'F' => Some(15),
        'G' => Some(16),
        'H' => Some(17),
        'J' => Some(18),
        'K' => Some(19),
        'M' => Some(20),
        'N' => Some(21),
        'P' => Some(22),
        'Q' => Some(23),
        'R' => Some(24),
        'S' => Some(25),
        'T' => Some(26),
        'V' => Some(27),
        'W' => Some(28),
        'X' => Some(29),
        'Y' => Some(30),
        'Z' => Some(31),
        _ => None,
    }
}

/// Decoding the symbol at any position of the table gives that position back.
pub proof fn lemma_symbol_value_of_table(value: int)
    requires
        0 <= value < 32,
    ensures
        symbol_value(CROCKFORD_ALPHABET@[value]) == Some(value as u8),
{
}

/// A symbol's value is below 32 and the table holds the symbol at that value.
pub proof fn lemma_table_of_symbol_value(c: char)
    requires
        is_symbol(c),
    ensures
        symbol_value(c)->0 < 32,
        CROCKFORD_ALPHABET@[symbol_value(c)->0 as int] == c,
{
}

/// No two distinct symbols stand for the same value.
pub proof fn lemma_symbol_value_injective(c: char, d: char)
    requires
        is_symbol(c),
        symbol_value(c) == symbol_value(d),
    ensures
        c == d,
{
    lemma_table_of_symbol_value(c);
    lemma_table_of_symbol_value(d);
}

} // verus!
