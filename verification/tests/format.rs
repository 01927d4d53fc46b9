//! Record-level behaviour: the packed decoder, the value formatter, and the
//! input checker.

use sortmerge::decimal::{parse_packed_4bit, PackedVal};
use sortmerge::iodirect::output_file::TimeFormatter;
use sortmerge::lines::check_input;

fn line(v: u64) -> Vec<u8> {
    format!("{:013}\n", v).into_bytes()
}

fn content(vals: &[u64]) -> Vec<u8> {
    let mut c = Vec::new();
    for &v in vals {
        c.extend_from_slice(&line(v));
    }
    c
}

#[test]
fn test_4bit_packing() {
    let input = "1234567891234\n".as_bytes();
    let mut out: Vec<PackedVal> = Vec::new();
    parse_packed_4bit(input, &mut out, 0xCA);
    assert_eq!(1, out.len());
    assert_eq!(0x01_23_45_67_89_12_34_CA, out[0].inner());

    let packed = PackedVal::new(0x01_23_45_67_89_12_34_00, 0xCA);
    assert_eq!(0x01_23_45_67_89_12_34_CA, packed.inner());
    assert_eq!(0xCA, packed.file_idx());
}

#[test]
fn parse_keeps_input_order_and_tags() {
    let mut input = Vec::new();
    input.extend_from_slice("0000000000100\n".as_bytes());
    input.extend_from_slice("0000000000300\n".as_bytes());
    let mut out: Vec<PackedVal> = Vec::new();
    parse_packed_4bit(&input, &mut out, 3);
    assert_eq!(2, out.len());
    assert_eq!(0x0_00_00_00_00_01_00_03, out[0].inner());
    assert_eq!(0x0_00_00_00_00_03_00_03, out[1].inner());
    assert!(out[0].inner() < out[1].inner());
    assert_eq!(3, out[0].file_idx());
}

#[test]
fn parse_appends_to_existing_output() {
    let mut out: Vec<PackedVal> = Vec::new();
    parse_packed_4bit("0000000000100\n".as_bytes(), &mut out, 1);
    parse_packed_4bit("0000000000200\n".as_bytes(), &mut out, 2);
    assert_eq!(2, out.len());
    assert_eq!(0x0_00_00_00_00_01_00_01, out[0].inner());
    assert_eq!(0x0_00_00_00_00_02_00_02, out[1].inner());
}

#[test]
fn packed_order_matches_numeric_order() {
    let mut input = Vec::new();
    for v in [0u64, 9, 10, 99, 100, 999999999999, 1000000000000, 9999999999999] {
        input.extend_from_slice(&line(v));
    }
    let mut out: Vec<PackedVal> = Vec::new();
    parse_packed_4bit(&input, &mut out, 0);
    for w in out.windows(2) {
        assert!(w[0].inner() < w[1].inner());
    }
}

#[test]
fn iodirect_test_time_formatter() {
    let mut fmt = TimeFormatter::new();
    let expected: &[u8] = "1671669405500\n".as_bytes();
    assert_eq!(fmt.serialized_bytes(1671669405500_u64), expected);

    let expected: &[u8] = "1671669405596\n".as_bytes();
    assert_eq!(fmt.serialized_bytes(1671669405596_u64), expected);

    let expected: &[u8] = "2671669401116\n".as_bytes();
    assert_eq!(fmt.serialized_bytes(2671669401116_u64), expected);

    let expected: &[u8] = "2671669400006\n".as_bytes();
    assert_eq!(fmt.serialized_bytes(2671669400006_u64), expected);
}

#[test]
fn output_file_test_time_formatter() {
    let mut fmt = TimeFormatter::new();
    let expected: &[u8] = "1671669405500\n".as_bytes();
    assert_eq!(fmt.serialized_bytes(1671669405500_u64), expected);

    let expected: &[u8] = "1671669405596\n".as_bytes();
    assert_eq!(fmt.serialized_bytes(1671669405596_u64), expected);

    let expected: &[u8] = "2671669401116\n".as_bytes();
    assert_eq!(fmt.serialized_bytes(2671669401116_u64), expected);

    let expected: &[u8] = "2671669400006\n".as_bytes();
    assert_eq!(fmt.serialized_bytes(2671669400006_u64), expected);
}

#[test]
fn check_input_accepts_sorted_records() {
    assert!(check_input(&content(&[100, 200, 300])));
    assert!(check_input(&content(&[5, 5, 5])));
    assert!(check_input(&[]));
}

#[test]
fn check_input_accepts_missing_final_newline() {
    let mut c = content(&[100, 200]);
    c.pop();
    assert!(check_input(&c));
}

#[test]
fn check_input_rejects_bad_length() {
    let mut c = content(&[100]);
    c.pop();
    c.pop();
    assert!(!check_input(&c));
}

#[test]
fn check_input_rejects_non_digit() {
    let mut c = content(&[100]);
    c[3] = b'x';
    assert!(!check_input(&c));
}

#[test]
fn check_input_rejects_missing_inner_newline() {
    let mut c = content(&[100, 200]);
    c[13] = b'0';
    // still 28 bytes, but the first record has no terminator
    assert!(!check_input(&c));
}

#[test]
fn check_input_rejects_unsorted() {
    assert!(!check_input(&content(&[300, 100])));
}
