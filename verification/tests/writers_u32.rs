use algorithms::alexandrescu32;
use algorithms::jeaiii32_10;
use algorithms::jeaiii32_10_start;
use algorithms::jeaiii32_better;
use algorithms::jeaiii32_digits;
use algorithms::jeaiii32_original;
use algorithms::naive_exact32;
use algorithms::naive_temp32;

type WriterU32 = fn(u32, &mut Vec<u8>) -> usize;

const WRITERS_U32: &[(&str, WriterU32)] = &[
    ("naive_temp32", naive_temp32),
    ("naive_exact32", naive_exact32),
    ("alexandrescu32", alexandrescu32),
    ("jeaiii32_original", jeaiii32_original),
    ("jeaiii32_better", jeaiii32_better),
    ("jeaiii32_digits", jeaiii32_digits),
    ("jeaiii32_10_start", jeaiii32_10_start),
];

fn check_u32(writer: WriterU32, name: &str, value: u32, expected: &[u8]) {
    let mut buffer = vec![b'\x00'; 16];
    let count = writer(value, &mut buffer);
    assert_eq!(
        &buffer[..count],
        expected,
        "{} misprinted {}",
        name,
        value
    );
}

fn boundary_cases(writer: WriterU32, name: &str) {
    check_u32(writer, name, 0, b"0");
    check_u32(writer, name, 1, b"1");
    check_u32(writer, name, 5, b"5");
    check_u32(writer, name, 9, b"9");
    check_u32(writer, name, 10, b"10");
    check_u32(writer, name, 11, b"11");
    check_u32(writer, name, 12, b"12");
    check_u32(writer, name, 99, b"99");
    check_u32(writer, name, 100, b"100");
    check_u32(writer, name, 101, b"101");
    check_u32(writer, name, 123, b"123");
    check_u32(writer, name, 999, b"999");
    check_u32(writer, name, 1000, b"1000");
    check_u32(writer, name, 1001, b"1001");
    check_u32(writer, name, 1234, b"1234");
    check_u32(writer, name, 9999, b"9999");
    check_u32(writer, name, 10000, b"10000");
    check_u32(writer, name, 10001, b"10001");
    check_u32(writer, name, 12345, b"12345");
    check_u32(writer, name, 99999, b"99999");
    check_u32(writer, name, 100000, b"100000");
    check_u32(writer, name, 100001, b"100001");
    check_u32(writer, name, 123456, b"123456");
    check_u32(writer, name, 999999, b"999999");
    check_u32(writer, name, 1000000, b"1000000");
    check_u32(writer, name, 1000001, b"1000001");
    check_u32(writer, name, 1234567, b"1234567");
    check_u32(writer, name, 9999999, b"9999999");
    check_u32(writer, name, 10000000, b"10000000");
    check_u32(writer, name, 10000001, b"10000001");
    check_u32(writer, name, 12345678, b"12345678");
    check_u32(writer, name, 99999999, b"99999999");
    check_u32(writer, name, 100000000, b"100000000");
    check_u32(writer, name, 100000001, b"100000001");
    check_u32(writer, name, 123456789, b"123456789");
    check_u32(writer, name, 999999999, b"999999999");
    check_u32(writer, name, 1000000000, b"1000000000");
    check_u32(writer, name, 1000000001, b"1000000001");
    check_u32(writer, name, 2147483647, b"2147483647");
    check_u32(writer, name, 2147483648, b"2147483648");
    check_u32(writer, name, 4294967295, b"4294967295");
}

#[test]
fn naive_temp32_boundaries() {
    boundary_cases(naive_temp32, "naive_temp32");
}

#[test]
fn naive_exact32_boundaries() {
    boundary_cases(naive_exact32, "naive_exact32");
}

#[test]
fn alexandrescu32_boundaries() {
    boundary_cases(alexandrescu32, "alexandrescu32");
}

#[test]
fn jeaiii32_original_boundaries() {
    boundary_cases(jeaiii32_original, "jeaiii32_original");
}

#[test]
fn jeaiii32_better_boundaries() {
    boundary_cases(jeaiii32_better, "jeaiii32_better");
}

#[test]
fn jeaiii32_digits_boundaries() {
    boundary_cases(jeaiii32_digits, "jeaiii32_digits");
}

#[test]
fn jeaiii32_10_start_boundaries() {
    boundary_cases(jeaiii32_10_start, "jeaiii32_10_start");
}

fn roundtrip_values() -> Vec<u32> {
    let mut values = vec![0u32];
    let mut bit: u64 = 1;
    while bit <= u32::MAX as u64 {
        for delta in [-1i64, 0, 1] {
            let v = bit as i64 + delta;
            if v >= 0 && v <= u32::MAX as i64 {
                values.push(v as u32);
            }
        }
        bit <<= 1;
    }
    values.push(u32::MAX);
    values
}

fn roundtrip_u32(writer: WriterU32, name: &str) {
    for value in roundtrip_values() {
        let mut buffer = vec![b'\x00'; 16];
        let count = writer(value, &mut buffer);
        let text = core::str::from_utf8(&buffer[..count]).unwrap();
        let parsed: u32 = text.parse().unwrap();
        assert_eq!(parsed, value, "{} failed the round trip on {}", name, value);
    }
}

#[test]
fn naive_temp32_roundtrip() {
    roundtrip_u32(naive_temp32, "naive_temp32");
}

#[test]
fn naive_exact32_roundtrip() {
    roundtrip_u32(naive_exact32, "naive_exact32");
}

#[test]
fn alexandrescu32_roundtrip() {
    roundtrip_u32(alexandrescu32, "alexandrescu32");
}

#[test]
fn jeaiii32_original_roundtrip() {
    roundtrip_u32(jeaiii32_original, "jeaiii32_original");
}

#[test]
fn jeaiii32_better_roundtrip() {
    roundtrip_u32(jeaiii32_better, "jeaiii32_better");
}

#[test]
fn jeaiii32_digits_roundtrip() {
    roundtrip_u32(jeaiii32_digits, "jeaiii32_digits");
}

#[test]
fn jeaiii32_10_start_roundtrip() {
    roundtrip_u32(jeaiii32_10_start, "jeaiii32_10_start");
}

#[test]
fn all_u32_writers_agree() {
    for value in roundtrip_values() {
        let mut reference: Option<Vec<u8>> = None;
        for (name, writer) in WRITERS_U32 {
            let mut buffer = vec![b'\x00'; 16];
            let count = writer(value, &mut buffer);
            let written = buffer[..count].to_vec();
            match &reference {
                None => reference = Some(written),
                Some(expected) => {
                    assert_eq!(&written, expected, "{} disagreed on {}", name, value);
                }
            }
        }
    }
}

#[test]
fn fixed10_pads_with_zeros() {
    let cases: &[(u32, &[u8])] = &[
        (0, b"0000000000"),
        (7, b"0000000007"),
        (10, b"0000000010"),
        (999, b"0000000999"),
        (123456789, b"0123456789"),
        (1000000000, b"1000000000"),
        (4294967295, b"4294967295"),
    ];
    for (value, expected) in cases {
        let mut buffer = vec![b'\x00'; 12];
        let count = jeaiii32_10(*value, &mut buffer);
        assert_eq!(count, 10);
        assert_eq!(&buffer[..10], *expected);
    }
}

#[test]
fn exhaustive_low_range_agreement() {
    for value in 0u32..110000 {
        let mut a = vec![b'\x00'; 16];
        let mut b = vec![b'\x00'; 16];
        let ca = naive_exact32(value, &mut a);
        let cb = jeaiii32_better(value, &mut b);
        assert_eq!(&a[..ca], &b[..cb], "mismatch at {}", value);
    }
}
