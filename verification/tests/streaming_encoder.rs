use crockford_base32::{CrockfordEncoder, IntoCrockfordEncoder};

fn encode_all(bytes: &[u8]) -> String {
    bytes.iter().copied().crockford_encoded().collect().into_iter().collect()
}

#[test]
fn basic_streaming_encoder() {
    let data = [
        0b11111000, 0b00111110, 0b00001111, 0b10000011, 0b11100000, 0b01010000,
    ];
    let mut byte_stream = data.into_iter();
    let encoded: String = CrockfordEncoder::new(&mut byte_stream)
        .into_iter()
        .collect()
        .into_iter()
        .collect();
    println!("{encoded}");
    assert_eq!(encoded, "Z0Z0Z0Z0A0");
}

#[test]
fn one_full_cycle_gives_eight_symbols() {
    let data = [0b11111000u8, 0b00111110, 0b00001111, 0b10000011, 0b11100000];
    assert_eq!(encode_all(&data), "Z0Z0Z0Z0");
}

#[test]
fn empty_input_gives_no_symbol() {
    assert_eq!(encode_all(&[]), "");
    let mut symbols = Vec::<u8>::new().into_iter().crockford_encoded();
    assert_eq!(symbols.next(), None);
    assert_eq!(symbols.next(), None);
}

#[test]
fn partial_cycles_are_completed_with_zero_bits() {
    assert_eq!(encode_all(b"h"), "D0");
    assert_eq!(encode_all(b"he"), "D1JG");
    assert_eq!(encode_all(b"hel"), "D1JPR");
    assert_eq!(encode_all(b"hell"), "D1JPRV0");
    assert_eq!(encode_all(b"hello"), "D1JPRV3F");
    assert_eq!(encode_all(b"hello world"), "D1JPRV3F41VPYWKCCG");
    assert_eq!(encode_all(&[0xff]), "ZW");
    assert_eq!(encode_all(&[0, 0]), "0000");
}

#[test]
fn symbol_count_is_the_bits_over_five_rounded_up() {
    for length in 0usize..=23 {
        let bytes = vec![0xa5u8; length];
        assert_eq!(encode_all(&bytes).len(), (8 * length + 4) / 5);
    }
}

#[test]
fn symbols_come_one_per_pull_and_then_none() {
    let mut symbols = vec![0b11111000u8, 0b00111110].into_iter().crockford_encoded();
    assert_eq!(symbols.next(), Some('Z'));
    assert_eq!(symbols.next(), Some('0'));
    assert_eq!(symbols.next(), Some('Z'));
    assert_eq!(symbols.next(), Some('0'));
    assert_eq!(symbols.next(), None);
    assert_eq!(symbols.next(), None);
}

#[test]
fn a_cycle_ends_every_five_bytes() {
    let first = [1u8, 2, 3, 4, 5];
    let second = [250u8, 251, 252, 253, 254];
    let mut both = first.to_vec();
    both.extend_from_slice(&second);
    let joined = encode_all(&both);
    assert_eq!(joined.len(), 16);
    assert_eq!(joined, format!("{}{}", encode_all(&first), encode_all(&second)));
}

#[test]
fn collect_after_some_pulls_gives_the_remaining_symbols() {
    let mut symbols = b"hello world".iter().copied().crockford_encoded();
    assert_eq!(symbols.next(), Some('D'));
    assert_eq!(symbols.next(), Some('1'));
    assert_eq!(symbols.next(), Some('J'));
    let rest: String = symbols.collect().into_iter().collect();
    assert_eq!(rest, "PRV3F41VPYWKCCG");
}

#[test]
fn collect_of_a_finished_encoder_is_empty() {
    let mut symbols = vec![7u8].into_iter().crockford_encoded();
    while symbols.next().is_some() {}
    assert_eq!(symbols.collect(), Vec::<char>::new());
}

#[test]
fn encoder_helpers_pull_and_carry() {
    let mut symbols = vec![9u8].into_iter().crockford_encoded();
    assert_eq!(symbols.get_next(), 9);
    symbols.push_buffer(200);
    assert_eq!(symbols.pop_buffer(), 200);
    assert_eq!(symbols.pop_buffer(), 200);
    assert_eq!(symbols.get_next(), 0);
}

#[test]
fn every_byte_value_is_encodable() {
    for byte in 0u8..=255 {
        let encoded = encode_all(&[byte]);
        let expected: String = [
            crockford_base32::CROCKFORD_ALPHABET[(byte >> 3) as usize],
            crockford_base32::CROCKFORD_ALPHABET[((byte & 7) << 2) as usize],
        ]
        .iter()
        .collect();
        assert_eq!(encoded, expected);
    }
}
