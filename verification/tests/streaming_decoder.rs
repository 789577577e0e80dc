use crockford_base32::{CrockfordDecodeError, IntoCrockfordDecoder, IntoCrockfordEncoder};

fn decode_all(symbols: &str) -> Result<Vec<u8>, CrockfordDecodeError> {
    symbols.chars().crockford_decoded().collect()
}

#[test]
fn simple_decode() {
    let encoded: String = (0u8..=u8::MAX)
        .crockford_encoded()
        .collect()
        .into_iter()
        .collect();
    println!("{encoded}");
    let decoded: Vec<u8> = encoded.chars().crockford_decoded().collect().unwrap();
    println!("{decoded:?}");
    let data: Vec<_> = (0u8..=u8::MAX)
        .crockford_encoded()
        .collect()
        .into_iter()
        .crockford_decoded()
        .collect()
        .unwrap();
    for x in data.iter().take(256) {
        println!("{x}");
    }
    let bytes: Vec<u8> = (0u8..=u8::MAX).collect();
    assert_eq!(encoded.len(), 410);
    assert!(encoded.starts_with("000G40R40M30E209185GR38E"));
    assert!(encoded.ends_with("XZSZFYZW"));
    assert_eq!(decoded.len(), 257);
    assert_eq!(&decoded[..256], &bytes[..]);
    assert_eq!(decoded[256], 0);
    assert_eq!(data, decoded);
}

#[test]
fn whole_cycles_round_trip() {
    for cycles in 0usize..=6 {
        let bytes: Vec<u8> = (0..5 * cycles).map(|i| (i * 37 + 11) as u8).collect();
        let symbols = bytes.iter().copied().crockford_encoded().collect();
        assert_eq!(symbols.len(), 8 * cycles);
        let back = symbols.into_iter().crockford_decoded().collect();
        assert_eq!(back, Ok(bytes));
    }
}

#[test]
fn partial_cycle_round_trip_adds_one_zero_byte() {
    let symbols = b"hello world".iter().copied().crockford_encoded().collect();
    let back = symbols.into_iter().crockford_decoded().collect().unwrap();
    assert_eq!(back, b"hello world\0".to_vec());
}

#[test]
fn one_full_cycle_of_symbols_gives_five_bytes() {
    assert_eq!(
        decode_all("Z0Z0Z0Z0"),
        Ok(vec![0b11111000, 0b00111110, 0b00001111, 0b10000011, 0b11100000])
    );
    assert_eq!(decode_all("D1JPRV3F"), Ok(b"hello".to_vec()));
}

#[test]
fn partial_cycles_of_symbols_are_completed_with_zero_bits() {
    assert_eq!(decode_all(""), Ok(vec![]));
    assert_eq!(decode_all("Z"), Ok(vec![248]));
    assert_eq!(decode_all("ZZ"), Ok(vec![255, 192]));
    assert_eq!(decode_all("ZZZ"), Ok(vec![255, 254]));
    assert_eq!(decode_all("ZZZZ"), Ok(vec![255, 255, 240]));
    assert_eq!(decode_all("ZZZZZ"), Ok(vec![255, 255, 255, 128]));
    assert_eq!(decode_all("ZZZZZZ"), Ok(vec![255, 255, 255, 252]));
    assert_eq!(decode_all("ZZZZZZZ"), Ok(vec![255, 255, 255, 255, 224]));
    assert_eq!(decode_all("ZZZZZZZZ"), Ok(vec![255, 255, 255, 255, 255]));
    assert_eq!(decode_all("80"), Ok(vec![64, 0]));
    assert_eq!(decode_all("0Z"), Ok(vec![7, 192]));
}

#[test]
fn bytes_come_one_per_pull_and_then_none() {
    let mut bytes = "D1JPRV3F".chars().crockford_decoded();
    assert_eq!(bytes.next(), Some(Ok(b'h')));
    assert_eq!(bytes.next(), Some(Ok(b'e')));
    assert_eq!(bytes.next(), Some(Ok(b'l')));
    assert_eq!(bytes.next(), Some(Ok(b'l')));
    assert_eq!(bytes.next(), Some(Ok(b'o')));
    assert_eq!(bytes.next(), None);
    assert_eq!(bytes.next(), None);
}

#[test]
fn a_bad_character_is_an_error_value_in_the_stream() {
    let mut bytes = "D1JP?V3F".chars().crockford_decoded();
    assert_eq!(bytes.next(), Some(Ok(b'h')));
    assert_eq!(bytes.next(), Some(Ok(b'e')));
    assert_eq!(
        bytes.next(),
        Some(Err(CrockfordDecodeError {
            character: '?',
            slice_position: 4
        }))
    );
    assert_eq!(bytes.next(), None);
}

#[test]
fn the_error_names_the_first_bad_character() {
    for position in 0usize..16 {
        let mut symbols: Vec<char> = "D1JPRV3FD1JPRV3F".chars().collect();
        symbols[position] = 'U';
        if position + 3 < 16 {
            symbols[position + 3] = 'L';
        }
        let mut bytes = symbols.into_iter().crockford_decoded();
        let mut before = 0;
        let error = loop {
            match bytes.next() {
                Some(Ok(_)) => before += 1,
                Some(Err(error)) => break error,
                None => panic!("no error for position {position}"),
            }
        };
        assert_eq!(
            error,
            CrockfordDecodeError {
                character: 'U',
                slice_position: position
            }
        );
        assert_eq!(before, 5 * position / 8);
        assert_eq!(bytes.next(), None);
    }
}

#[test]
fn collect_gives_the_error_in_place_of_the_bytes() {
    assert_eq!(
        decode_all("Z0Z0Z0ZO"),
        Err(CrockfordDecodeError {
            character: 'O',
            slice_position: 7
        })
    );
    assert_eq!(
        decode_all("i"),
        Err(CrockfordDecodeError {
            character: 'i',
            slice_position: 0
        })
    );
}

#[test]
fn lower_case_letters_are_no_symbols() {
    assert_eq!(
        decode_all("D1jPRV3F"),
        Err(CrockfordDecodeError {
            character: 'j',
            slice_position: 2
        })
    );
}

#[test]
fn collect_after_some_pulls_gives_the_remaining_bytes() {
    let mut bytes = "D1JPRV3F41VPYWKCCG".chars().crockford_decoded();
    assert_eq!(bytes.next(), Some(Ok(b'h')));
    assert_eq!(bytes.next(), Some(Ok(b'e')));
    assert_eq!(bytes.collect(), Ok(b"llo world\0".to_vec()));
}

#[test]
fn collect_of_a_finished_decoder_is_empty() {
    let mut bytes = "Z".chars().crockford_decoded();
    assert_eq!(bytes.next(), Some(Ok(248)));
    assert_eq!(bytes.next(), None);
    assert_eq!(bytes.collect(), Ok(vec![]));
}

#[test]
fn decoder_helpers_pull_and_carry() {
    let mut bytes = "Z?".chars().crockford_decoded();
    assert_eq!(bytes.get_next(), Ok(31));
    bytes.push_buffer(17);
    assert_eq!(bytes.pop_buffer(), 17);
    assert_eq!(bytes.pop_buffer(), 17);
    assert_eq!(
        bytes.get_next(),
        Err(CrockfordDecodeError {
            character: '?',
            slice_position: 1
        })
    );
    assert_eq!(bytes.get_next(), Ok(0));
}

#[test]
fn a_dry_source_gives_the_value_zero() {
    let mut bytes = "".chars().crockford_decoded();
    assert_eq!(bytes.get_next(), Ok(0));
    assert_eq!(bytes.get_next(), Ok(0));
}

#[test]
fn a_cycle_ends_every_eight_symbols() {
    let first = decode_all("D1JPRV3F").unwrap();
    let second = decode_all("ZZZZZZZZ").unwrap();
    let both = decode_all("D1JPRV3FZZZZZZZZ").unwrap();
    assert_eq!(both.len(), 10);
    assert_eq!(both, [first, second].concat());
}

#[test]
fn whole_cycles_of_symbols_round_trip() {
    for symbols in ["", "D1JPRV3F", "ZZZZZZZZ00000000", "0123456789ABCDEFGHJKMNPQRSTVWXYZ"] {
        let bytes = decode_all(symbols).unwrap();
        assert_eq!(bytes.len(), 5 * symbols.len() / 8);
        let back: String = bytes.into_iter().crockford_encoded().collect().into_iter().collect();
        assert_eq!(back, symbols);
    }
}
