use crockford_base32::{decode, encode, CrockfordDecodeError};

#[test]
fn test_encode() {
    let mut buf = ['?'; 5];
    encode(1000 as u32, &mut buf[1..]);
    assert_eq!(['?', '0', '0', 'Z', '8'], buf);
}

#[test]
fn test_decode() {
    assert_eq!(1000 as u32, decode(&['0', 'Z', '8']).unwrap());
}

#[test]
fn test_invalid_character() {
    assert_eq!(
        CrockfordDecodeError {
            character: '?',
            slice_position: 1
        },
        decode::<u32>(&['0', '?', 'Z', '8']).unwrap_err()
    )
}

fn written<N: crockford_base32::UnsignedInteger>(value: N, width: usize) -> String {
    let mut buffer = vec!['_'; width];
    encode(value, &mut buffer);
    buffer.into_iter().collect()
}

fn read<N: crockford_base32::UnsignedInteger>(symbols: &str) -> Result<N, CrockfordDecodeError> {
    let buffer: Vec<char> = symbols.chars().collect();
    decode(&buffer)
}

#[test]
fn encode_fills_every_position() {
    assert_eq!(written(0u8, 3), "000");
    assert_eq!(written(255u8, 2), "7Z");
    assert_eq!(written(u32::MAX, 7), "3ZZZZZZ");
    assert_eq!(written(u64::MAX, 13), "FZZZZZZZZZZZZ");
    assert_eq!(written(u128::MAX, 26), "7ZZZZZZZZZZZZZZZZZZZZZZZZZ");
    assert_eq!(written(1000usize, 4), "00Z8");
    assert_eq!(written(1000u16, 2), "Z8");
    assert_eq!(written(5u64, 0), "");
}

#[test]
fn encode_leaves_out_high_digits_that_have_no_room() {
    assert_eq!(written(1000u32, 1), "8");
    assert_eq!(written(u64::MAX, 3), "ZZZ");
}

#[test]
fn encode_pads_a_wide_buffer_with_zero_digits() {
    assert_eq!(written(u128::MAX, 30), "00007ZZZZZZZZZZZZZZZZZZZZZZZZZ");
    assert_eq!(written(31u8, 40), format!("{}Z", "0".repeat(39)));
}

#[test]
fn decode_reads_base_32() {
    assert_eq!(read::<u8>(""), Ok(0));
    assert_eq!(read::<u8>("10"), Ok(32));
    assert_eq!(read::<u16>("ZZZZ"), Ok(65535));
    assert_eq!(read::<u32>("3ZZZZZZ"), Ok(u32::MAX));
    assert_eq!(read::<u64>("FZZZZZZZZZZZZ"), Ok(u64::MAX));
    assert_eq!(read::<u128>("7ZZZZZZZZZZZZZZZZZZZZZZZZZ"), Ok(u128::MAX));
    assert_eq!(read::<usize>("00Z8"), Ok(1000));
}

#[test]
fn decode_drops_the_bits_that_the_type_has_no_room_for() {
    assert_eq!(read::<u8>("ZZ"), Ok(255));
    assert_eq!(read::<u8>("80"), Ok(0));
    assert_eq!(read::<u8>("G0"), Ok(0));
    assert_eq!(read::<u32>("ZZZZZZZ"), Ok(u32::MAX));
    assert_eq!(read::<u128>(&"Z".repeat(30)), Ok(u128::MAX));
    assert_eq!(read::<u128>(&format!("1{}", "0".repeat(26))), Ok(0));
    assert_eq!(read::<u64>(&format!("Z{}1", "0".repeat(40))), Ok(1));
}

#[test]
fn decode_reports_the_last_bad_character() {
    assert_eq!(
        read::<u64>("0?Z!8"),
        Err(CrockfordDecodeError {
            character: '!',
            slice_position: 3
        })
    );
    assert_eq!(
        read::<u8>("z"),
        Err(CrockfordDecodeError {
            character: 'z',
            slice_position: 0
        })
    );
    assert_eq!(
        read::<u128>(&format!("U{}", "0".repeat(40))),
        Err(CrockfordDecodeError {
            character: 'U',
            slice_position: 0
        })
    );
}

#[test]
fn values_that_fit_the_width_round_trip() {
    let values: [u64; 9] = [0, 1, 31, 32, 1000, 32767, 32768, 1 << 40, u64::MAX];
    for value in values {
        for width in 0usize..=16 {
            if width < 13 && value >> (5 * width) != 0 {
                continue;
            }
            let symbols = written(value, width);
            assert_eq!(symbols.len(), width);
            assert_eq!(read::<u64>(&symbols), Ok(value));
        }
    }
    for value in 0u8..=255 {
        assert_eq!(read::<u8>(&written(value, 2)), Ok(value));
    }
    assert_eq!(read::<u128>(&written(u128::MAX - 12345, 26)), Ok(u128::MAX - 12345));
    assert_eq!(read::<usize>(&written(usize::MAX, 13)), Ok(usize::MAX));
    assert_eq!(read::<u16>(&written(54321u16, 4)), Ok(54321));
}
