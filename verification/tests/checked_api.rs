use algorithms::copy_to_dst;
use algorithms::digit_to_char_const;
use algorithms::write_decimal_u128;
use algorithms::write_decimal_u16;
use algorithms::write_decimal_u32;
use algorithms::write_decimal_u64;
use algorithms::write_decimal_u8;
use algorithms::BufferTooSmall;
use algorithms::DIGIT_TO_BASE10_SQUARED;

#[test]
fn checked_write_succeeds_with_room() {
    let mut buffer = vec![b'\x00'; 16];
    let count = write_decimal_u32(4294967295, &mut buffer).unwrap();
    assert_eq!(&buffer[..count], b"4294967295");

    let mut buffer = vec![b'\x00'; 3];
    let count = write_decimal_u8(255, &mut buffer).unwrap();
    assert_eq!(&buffer[..count], b"255");

    let mut buffer = vec![b'\x00'; 5];
    let count = write_decimal_u16(65535, &mut buffer).unwrap();
    assert_eq!(&buffer[..count], b"65535");

    let mut buffer = vec![b'\x00'; 20];
    let count = write_decimal_u64(u64::MAX, &mut buffer).unwrap();
    assert_eq!(&buffer[..count], b"18446744073709551615");

    let mut buffer = vec![b'\x00'; 39];
    let count = write_decimal_u128(u128::MAX, &mut buffer).unwrap();
    assert_eq!(&buffer[..count], b"340282366920938463463374607431768211455");
}

#[test]
fn checked_write_fails_when_short() {
    let mut buffer = vec![b'\x00'; 9];
    assert_eq!(write_decimal_u32(1000000000, &mut buffer), Err(BufferTooSmall));
    assert_eq!(buffer, vec![b'\x00'; 9]);

    let mut buffer: Vec<u8> = Vec::new();
    assert_eq!(write_decimal_u8(0, &mut buffer), Err(BufferTooSmall));

    let mut buffer = vec![b'\x00'; 2];
    assert_eq!(write_decimal_u16(100, &mut buffer), Err(BufferTooSmall));

    let mut buffer = vec![b'\x00'; 19];
    assert_eq!(write_decimal_u64(u64::MAX, &mut buffer), Err(BufferTooSmall));

    let mut buffer = vec![b'\x00'; 38];
    assert_eq!(write_decimal_u128(u128::MAX, &mut buffer), Err(BufferTooSmall));
}

#[test]
fn checked_write_boundary_capacities() {
    // for each value, every capacity below the digit count fails and the
    // exact digit count succeeds
    for value in [0u32, 9, 10, 99, 100, 9999, 10000, 999999999, 1000000000] {
        let needed = value.to_string().len();
        for capacity in 0..needed {
            let mut buffer = vec![b'\x00'; capacity];
            assert_eq!(
                write_decimal_u32(value, &mut buffer),
                Err(BufferTooSmall),
                "capacity {} wrongly accepted for {}",
                capacity,
                value
            );
        }
        let mut buffer = vec![b'\x00'; needed];
        let count = write_decimal_u32(value, &mut buffer).unwrap();
        assert_eq!(count, needed);
        assert_eq!(&buffer[..count], value.to_string().as_bytes());
    }
}

#[test]
fn pair_table_spells_every_pair() {
    for r in 0usize..100 {
        assert_eq!(DIGIT_TO_BASE10_SQUARED[2 * r], b'0' + (r / 10) as u8);
        assert_eq!(DIGIT_TO_BASE10_SQUARED[2 * r + 1], b'0' + (r % 10) as u8);
    }
}

#[test]
fn digit_chars() {
    assert_eq!(digit_to_char_const(0, 10), b'0');
    assert_eq!(digit_to_char_const(9, 10), b'9');
    assert_eq!(digit_to_char_const(10, 16), b'A');
    assert_eq!(digit_to_char_const(35, 36), b'Z');
}

#[test]
fn copy_to_dst_copies_prefix() {
    let mut dst = vec![9u8; 8];
    let n = copy_to_dst(&mut dst, b"abc");
    assert_eq!(n, 3);
    assert_eq!(&dst[..3], b"abc");
    assert_eq!(&dst[3..], &[9u8; 5]);
}
