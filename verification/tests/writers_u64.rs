use algorithms::alexandrescu64;
use algorithms::jeaiii64_better;
use algorithms::jeaiii64_better_v2;
use algorithms::jeaiii64_better_v3;
use algorithms::jeaiii64_better_v4;
use algorithms::jeaiii64_better_v5;
use algorithms::jeaiii64_better_v6;
use algorithms::naive_exact64;
use algorithms::naive_temp64;

type WriterU64 = fn(u64, &mut Vec<u8>) -> usize;

const WRITERS_U64: &[(&str, WriterU64)] = &[
    ("naive_temp64", naive_temp64),
    ("naive_exact64", naive_exact64),
    ("alexandrescu64", alexandrescu64),
    ("jeaiii64_better", jeaiii64_better),
    ("jeaiii64_better_v2", jeaiii64_better_v2),
    ("jeaiii64_better_v3", jeaiii64_better_v3),
    ("jeaiii64_better_v4", jeaiii64_better_v4),
    ("jeaiii64_better_v5", jeaiii64_better_v5),
    ("jeaiii64_better_v6", jeaiii64_better_v6),
];

fn check_u64(writer: WriterU64, name: &str, value: u64, expected: &[u8]) {
    let mut buffer = vec![b'\x00'; 32];
    let count = writer(value, &mut buffer);
    assert_eq!(
        &buffer[..count],
        expected,
        "{} misprinted {}",
        name,
        value
    );
}

fn boundary_cases(writer: WriterU64, name: &str) {
    check_u64(writer, name, 0, b"0");
    check_u64(writer, name, 9, b"9");
    check_u64(writer, name, 10, b"10");
    check_u64(writer, name, 99, b"99");
    check_u64(writer, name, 100, b"100");
    check_u64(writer, name, 12345, b"12345");
    check_u64(writer, name, 9999999, b"9999999");
    check_u64(writer, name, 999999999, b"999999999");
    check_u64(writer, name, 1000000000, b"1000000000");
    check_u64(writer, name, 1234567890, b"1234567890");
    check_u64(writer, name, 4294967295, b"4294967295");
    check_u64(writer, name, 4294967296, b"4294967296");
    check_u64(writer, name, 6000000000, b"6000000000");
    check_u64(writer, name, 8589934589, b"8589934589");
    check_u64(writer, name, 9999999999, b"9999999999");
    check_u64(writer, name, 10000000000, b"10000000000");
    check_u64(writer, name, 99999999999, b"99999999999");
    check_u64(writer, name, 100000000000, b"100000000000");
    check_u64(writer, name, 999999999999999, b"999999999999999");
    check_u64(writer, name, 1000000000000000, b"1000000000000000");
    check_u64(writer, name, 1234567890123456, b"1234567890123456");
    check_u64(writer, name, 99999999999999999, b"99999999999999999");
    check_u64(writer, name, 100000000000000000, b"100000000000000000");
    check_u64(writer, name, 999999999999999999, b"999999999999999999");
    check_u64(writer, name, 1000000000000000000, b"1000000000000000000");
    check_u64(writer, name, 1234567890123456789, b"1234567890123456789");
    check_u64(writer, name, 4294967295999999999, b"4294967295999999999");
    check_u64(writer, name, 4294967296000000000, b"4294967296000000000");
    check_u64(writer, name, 9223372036854775807, b"9223372036854775807");
    check_u64(writer, name, 9223372036854775808, b"9223372036854775808");
    check_u64(writer, name, 9999999999999999999, b"9999999999999999999");
    check_u64(writer, name, 10000000000000000000, b"10000000000000000000");
    check_u64(writer, name, 18446744073709551615, b"18446744073709551615");
}

#[test]
fn naive_temp64_boundaries() {
    boundary_cases(naive_temp64, "naive_temp64");
}

#[test]
fn naive_exact64_boundaries() {
    boundary_cases(naive_exact64, "naive_exact64");
}

#[test]
fn alexandrescu64_boundaries() {
    boundary_cases(alexandrescu64, "alexandrescu64");
}

#[test]
fn jeaiii64_better_boundaries() {
    boundary_cases(jeaiii64_better, "jeaiii64_better");
}

#[test]
fn jeaiii64_better_v2_boundaries() {
    boundary_cases(jeaiii64_better_v2, "jeaiii64_better_v2");
}

#[test]
fn jeaiii64_better_v3_boundaries() {
    boundary_cases(jeaiii64_better_v3, "jeaiii64_better_v3");
}

#[test]
fn jeaiii64_better_v4_boundaries() {
    boundary_cases(jeaiii64_better_v4, "jeaiii64_better_v4");
}

#[test]
fn jeaiii64_better_v5_boundaries() {
    boundary_cases(jeaiii64_better_v5, "jeaiii64_better_v5");
}

#[test]
fn jeaiii64_better_v6_boundaries() {
    boundary_cases(jeaiii64_better_v6, "jeaiii64_better_v6");
}

fn roundtrip_values() -> Vec<u64> {
    let mut values = vec![0u64];
    let mut bit: u128 = 1;
    while bit <= u64::MAX as u128 {
        for delta in [-1i128, 0, 1] {
            let v = bit as i128 + delta;
            if v >= 0 && v <= u64::MAX as i128 {
                values.push(v as u64);
            }
        }
        bit <<= 1;
    }
    let mut p: u128 = 1;
    while p <= u64::MAX as u128 {
        for delta in [-1i128, 0, 1] {
            let v = p as i128 + delta;
            if v >= 0 && v <= u64::MAX as i128 {
                values.push(v as u64);
            }
        }
        p *= 10;
    }
    values.push(u64::MAX);
    values
}

fn roundtrip_u64(writer: WriterU64, name: &str) {
    for value in roundtrip_values() {
        let mut buffer = vec![b'\x00'; 32];
        let count = writer(value, &mut buffer);
        let text = core::str::from_utf8(&buffer[..count]).unwrap();
        let parsed: u64 = text.parse().unwrap();
        assert_eq!(parsed, value, "{} failed the round trip on {}", name, value);
    }
}

#[test]
fn naive_temp64_roundtrip() {
    roundtrip_u64(naive_temp64, "naive_temp64");
}

#[test]
fn naive_exact64_roundtrip() {
    roundtrip_u64(naive_exact64, "naive_exact64");
}

#[test]
fn alexandrescu64_roundtrip() {
    roundtrip_u64(alexandrescu64, "alexandrescu64");
}

#[test]
fn jeaiii64_better_roundtrip() {
    roundtrip_u64(jeaiii64_better, "jeaiii64_better");
}

#[test]
fn jeaiii64_better_v2_roundtrip() {
    roundtrip_u64(jeaiii64_better_v2, "jeaiii64_better_v2");
}

#[test]
fn jeaiii64_better_v3_roundtrip() {
    roundtrip_u64(jeaiii64_better_v3, "jeaiii64_better_v3");
}

#[test]
fn jeaiii64_better_v4_roundtrip() {
    roundtrip_u64(jeaiii64_better_v4, "jeaiii64_better_v4");
}

#[test]
fn jeaiii64_better_v5_roundtrip() {
    roundtrip_u64(jeaiii64_better_v5, "jeaiii64_better_v5");
}

#[test]
fn jeaiii64_better_v6_roundtrip() {
    roundtrip_u64(jeaiii64_better_v6, "jeaiii64_better_v6");
}

#[test]
fn all_u64_writers_agree() {
    for value in roundtrip_values() {
        let mut reference: Option<Vec<u8>> = None;
        for (name, writer) in WRITERS_U64 {
            let mut buffer = vec![b'\x00'; 32];
            let count = writer(value, &mut buffer);
            let written = buffer[..count].to_vec();
            match &reference {
                None => reference = Some(written),
                Some(expected) => {
                    assert_eq!(&written, expected, "{} disagreed on {}", name, value);
                }
            }
        }
    }
}
