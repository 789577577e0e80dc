use crockford_base32::{crockford_index, CROCKFORD_ALPHABET};

#[test]
fn the_table_is_the_crockford_alphabet() {
    let table: String = CROCKFORD_ALPHABET.iter().collect();
    assert_eq!(table, "0123456789ABCDEFGHJKMNPQRSTVWXYZ");
}

#[test]
fn every_symbol_decodes_to_its_position() {
    for (position, symbol) in CROCKFORD_ALPHABET.iter().enumerate() {
        assert_eq!(crockford_index(*symbol), Some(position as u8));
    }
}

#[test]
fn no_two_characters_share_a_value() {
    let mut seen = [false; 32];
    for code in 0u32..=0x7f {
        let c = char::from_u32(code).unwrap();
        if let Some(value) = crockford_index(c) {
            assert!(!seen[value as usize]);
            seen[value as usize] = true;
            assert_eq!(CROCKFORD_ALPHABET[value as usize], c);
        }
    }
    assert!(seen.iter().all(|&found| found));
}

#[test]
fn ambiguous_and_lower_case_letters_are_no_symbols() {
    for c in ['I', 'L', 'O', 'U', 'a', 'z', 'i', 'l', 'o', 'u', '?', '_', ' ', '-', 'é'] {
        assert_eq!(crockford_index(c), None);
    }
}
