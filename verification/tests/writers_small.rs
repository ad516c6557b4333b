use algorithms::alexandrescu128;
use algorithms::alexandrescu16;
use algorithms::alexandrescu8;
use algorithms::jeaiii16_better;
use algorithms::jeaiii16as32_better;
use algorithms::jeaiii8_better;
use algorithms::jeaiii8as32_better;
use algorithms::naive_exact128;
use algorithms::naive_exact16;
use algorithms::naive_exact8;
use algorithms::naive_temp16;
use algorithms::naive_temp8;

fn check_u8(writer: fn(u8, &mut Vec<u8>) -> usize, name: &str, value: u8, expected: &[u8]) {
    let mut buffer = vec![b'\x00'; 16];
    let count = writer(value, &mut buffer);
    assert_eq!(&buffer[..count], expected, "{} misprinted {}", name, value);
}

fn u8_cases(writer: fn(u8, &mut Vec<u8>) -> usize, name: &str) {
    check_u8(writer, name, 0, b"0");
    check_u8(writer, name, 9, b"9");
    check_u8(writer, name, 10, b"10");
    check_u8(writer, name, 99, b"99");
    check_u8(writer, name, 100, b"100");
    check_u8(writer, name, 101, b"101");
    check_u8(writer, name, 200, b"200");
    check_u8(writer, name, 255, b"255");
}

#[test]
fn u8_writers() {
    u8_cases(naive_temp8, "naive_temp8");
    u8_cases(naive_exact8, "naive_exact8");
    u8_cases(alexandrescu8, "alexandrescu8");
    u8_cases(jeaiii8_better, "jeaiii8_better");
    u8_cases(jeaiii8as32_better, "jeaiii8as32_better");
}

#[test]
fn u8_exhaustive() {
    for value in 0u8..=255 {
        let expected = value.to_string();
        let mut buffer = vec![b'\x00'; 16];
        let count = jeaiii8_better(value, &mut buffer);
        assert_eq!(&buffer[..count], expected.as_bytes());
        let mut buffer = vec![b'\x00'; 16];
        let count = alexandrescu8(value, &mut buffer);
        assert_eq!(&buffer[..count], expected.as_bytes());
    }
}

fn check_u16(writer: fn(u16, &mut Vec<u8>) -> usize, name: &str, value: u16, expected: &[u8]) {
    let mut buffer = vec![b'\x00'; 16];
    let count = writer(value, &mut buffer);
    assert_eq!(&buffer[..count], expected, "{} misprinted {}", name, value);
}

fn u16_cases(writer: fn(u16, &mut Vec<u8>) -> usize, name: &str) {
    check_u16(writer, name, 0, b"0");
    check_u16(writer, name, 9, b"9");
    check_u16(writer, name, 10, b"10");
    check_u16(writer, name, 99, b"99");
    check_u16(writer, name, 100, b"100");
    check_u16(writer, name, 999, b"999");
    check_u16(writer, name, 1000, b"1000");
    check_u16(writer, name, 9999, b"9999");
    check_u16(writer, name, 10000, b"10000");
    check_u16(writer, name, 12345, b"12345");
    check_u16(writer, name, 65535, b"65535");
}

#[test]
fn u16_writers() {
    u16_cases(naive_temp16, "naive_temp16");
    u16_cases(naive_exact16, "naive_exact16");
    u16_cases(alexandrescu16, "alexandrescu16");
    u16_cases(jeaiii16_better, "jeaiii16_better");
    u16_cases(jeaiii16as32_better, "jeaiii16as32_better");
}

#[test]
fn u16_exhaustive() {
    for value in 0u16..=65535 {
        let expected = value.to_string();
        let mut buffer = vec![b'\x00'; 16];
        let count = jeaiii16_better(value, &mut buffer);
        assert_eq!(&buffer[..count], expected.as_bytes());
    }
}

fn check_u128(writer: fn(u128, &mut Vec<u8>) -> usize, name: &str, value: u128, expected: &[u8]) {
    let mut buffer = vec![b'\x00'; 48];
    let count = writer(value, &mut buffer);
    assert_eq!(&buffer[..count], expected, "{} misprinted {}", name, value);
}

fn u128_cases(writer: fn(u128, &mut Vec<u8>) -> usize, name: &str) {
    check_u128(writer, name, 0, b"0");
    check_u128(writer, name, 9, b"9");
    check_u128(writer, name, 10, b"10");
    check_u128(writer, name, 99999, b"99999");
    check_u128(writer, name, 18446744073709551615, b"18446744073709551615");
    check_u128(writer, name, 18446744073709551616, b"18446744073709551616");
    check_u128(
        writer,
        name,
        99999999999999999999999999999999999999,
        b"99999999999999999999999999999999999999",
    );
    check_u128(
        writer,
        name,
        100000000000000000000000000000000000000,
        b"100000000000000000000000000000000000000",
    );
    check_u128(
        writer,
        name,
        340282366920938463463374607431768211455,
        b"340282366920938463463374607431768211455",
    );
}

#[test]
fn u128_writers() {
    u128_cases(naive_exact128, "naive_exact128");
    u128_cases(alexandrescu128, "alexandrescu128");
}

#[test]
fn u128_roundtrip() {
    let mut values: Vec<u128> = vec![0, u128::MAX];
    let mut p: u128 = 1;
    loop {
        values.push(p);
        if p > u128::MAX / 10 {
            break;
        }
        values.push(p - 1);
        values.push(p + 1);
        p *= 10;
    }
    for value in values {
        let mut buffer = vec![b'\x00'; 48];
        let count = alexandrescu128(value, &mut buffer);
        let text = core::str::from_utf8(&buffer[..count]).unwrap();
        let parsed: u128 = text.parse().unwrap();
        assert_eq!(parsed, value);
        let mut buffer = vec![b'\x00'; 48];
        let count2 = naive_exact128(value, &mut buffer);
        assert_eq!(count, count2);
    }
}
