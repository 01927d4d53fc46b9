//! End-to-end merges through the public pipeline: streams in, aligned write
//! ops out, truncated to the exact merged bytes.

use sortmerge::iodirect::output_file::{OutputFile, WriteOp};
use sortmerge::iodirect::sorted_file::SortedFile;
use sortmerge::lines::check_input;
use sortmerge::merge::SortingWriter;
use sortmerge::{ALIGN, CHUNK_SIZE, LINE_WIDTH_INCL_NEWLINE};

fn line(v: u64) -> Vec<u8> {
    format!("{:013}\n", v).into_bytes()
}

fn content(vals: &[u64]) -> Vec<u8> {
    let mut c = Vec::new();
    for &v in vals {
        c.extend_from_slice(&line(v));
    }
    c
}

fn apply_op(bytes: &mut Vec<u8>, op: &WriteOp) {
    assert_eq!(0, op.offset % ALIGN, "write offset must be aligned");
    assert_eq!(0, op.data.len() % ALIGN, "write length must be aligned");
    let end = op.offset + op.data.len();
    assert_eq!(op.offset, bytes.len(), "writes must be issued in order");
    if bytes.len() < end {
        bytes.resize(end, 0xEE);
    }
    bytes[op.offset..end].copy_from_slice(&op.data);
}

/// Runs the whole pipeline in memory and returns the final file bytes.
fn run_merge(inputs: &[Vec<u8>]) -> Vec<u8> {
    let mut sfs = Vec::new();
    for (i, c) in inputs.iter().enumerate() {
        assert!(check_input(c), "test input must meet the format contract");
        sfs.push(SortedFile::new(c.clone(), i as u8));
    }
    let mut wr = SortingWriter::new(sfs);
    let mut out = OutputFile::new();
    let ops = wr.write_to(&mut out);
    let mut bytes = Vec::new();
    for op in &ops {
        assert_eq!(CHUNK_SIZE, op.data.len(), "every mid-stream block is full");
        apply_op(&mut bytes, op);
    }
    let (last, tlen) = out.close();
    if let Some(op) = &last {
        apply_op(&mut bytes, op);
    }
    assert!(bytes.len() >= tlen && bytes.len() - tlen < ALIGN);
    bytes.truncate(tlen);
    bytes
}

/// The merge every test is held against: collect, sort, render.
fn reference(inputs: &[Vec<u8>]) -> Vec<u8> {
    let mut vals: Vec<u64> = Vec::new();
    for c in inputs {
        let mut text = String::from_utf8(c.clone()).unwrap();
        if !text.ends_with('\n') {
            text.push('\n');
        }
        for l in text.lines() {
            vals.push(l.parse().unwrap());
        }
    }
    vals.sort();
    content(&vals)
}

#[test]
fn test_sorted_file() {
    let c = content(&[1671670171236, 1671670171236]);
    let mut sf = SortedFile::new(c, 0);
    assert_eq!(Some(0x167167017123600), sf.peek());
    sf.next();
    assert_eq!(Some(0x167167017123600), sf.peek());
}

#[test]
fn sorted_file_walks_all_lines() {
    let vals = [5u64, 5, 7, 1000000000000, 9999999999999];
    let mut sf = SortedFile::new(content(&vals), 0);
    for &v in &vals {
        let bytes = sf.peek_bytes().unwrap();
        assert_eq!(line(v), bytes);
        assert!(sf.peek().is_some());
        sf.next();
    }
    assert_eq!(None, sf.peek());
    assert_eq!(None, sf.peek_bytes());
    sf.next();
    assert_eq!(None, sf.peek());
}

#[test]
fn sorted_file_carries_partial_lines_across_refills() {
    // more than one read block, so refills carry a partial record
    let n: u64 = 80_000;
    let vals: Vec<u64> = (0..n).map(|i| 1_000_000_000_000 + i).collect();
    let mut sf = SortedFile::new(content(&vals), 0);
    let mut count: u64 = 0;
    while let Some(b) = sf.peek_bytes() {
        assert_eq!(line(vals[count as usize]), b);
        sf.next();
        count += 1;
    }
    assert_eq!(n, count);
}

#[test]
fn merge_empty_input_set() {
    let out = run_merge(&[]);
    assert_eq!(0, out.len());
}

#[test]
fn merge_single_line() {
    let input = "1671670171236\n".as_bytes().to_vec();
    let out = run_merge(&[input.clone()]);
    assert_eq!(input, out);
}

#[test]
fn merge_two_files_interleaved() {
    let a = content(&[100, 300]);
    let b = content(&[200, 400]);
    let out = run_merge(&[a, b]);
    assert_eq!(content(&[100, 200, 300, 400]), out);
}

#[test]
fn merge_duplicates_keep_their_count() {
    let a = content(&[5, 5]);
    let b = content(&[5, 9]);
    let out = run_merge(&[a, b]);
    assert_eq!(content(&[5, 5, 5, 9]), out);
}

#[test]
fn merge_missing_final_newline_is_restored() {
    let a = {
        let mut c = content(&[100, 300]);
        c.pop();
        c
    };
    let b = content(&[200]);
    let out = run_merge(&[a.clone(), b.clone()]);
    assert_eq!(content(&[100, 200, 300]), out);
    // size equals the sum of the normalized inputs
    assert_eq!(a.len() + 1 + b.len(), out.len());
}

#[test]
fn merge_six_files_large() {
    let sizes: [u64; 6] = [2_000, 4_000, 8_000, 10_000, 20_000, 80_000];
    let mut inputs = Vec::new();
    for (i, &n) in sizes.iter().enumerate() {
        let step = 1 + i as u64;
        let vals: Vec<u64> = (0..n).map(|k| 1_600_000_000_000 + k * step).collect();
        inputs.push(content(&vals));
    }
    let total: usize = inputs.iter().map(|c| c.len()).sum();
    let out = run_merge(&inputs);
    assert_eq!(total, out.len());
    assert_eq!(reference(&inputs), out);
}

#[test]
fn output_write_u64_renders_records() {
    let mut out = OutputFile::new();
    assert!(out.write_u64(100).is_none());
    assert!(out.write_u64(9_999_999_999_999).is_none());
    let (last, tlen) = out.close();
    let mut bytes = Vec::new();
    apply_op(&mut bytes, &last.unwrap());
    bytes.truncate(tlen);
    assert_eq!(content(&[100, 9999999999999]), bytes);
}

#[test]
fn output_splits_records_across_block_boundary() {
    // CHUNK_SIZE is not a multiple of the record width, so one record
    // straddles the first block boundary
    let per_block = CHUNK_SIZE / LINE_WIDTH_INCL_NEWLINE + 1;
    let mut out = OutputFile::new();
    let mut ops: Vec<WriteOp> = Vec::new();
    let rec = line(1234567890123);
    for _ in 0..per_block + 10 {
        if let Some(op) = out.write_bytes(&rec) {
            ops.push(op);
        }
    }
    assert_eq!(1, ops.len());
    assert_eq!(CHUNK_SIZE, ops[0].data.len());
    let (last, tlen) = out.close();
    let mut bytes = Vec::new();
    apply_op(&mut bytes, &ops[0]);
    apply_op(&mut bytes, &last.unwrap());
    assert_eq!((per_block + 10) * LINE_WIDTH_INCL_NEWLINE, tlen);
    bytes.truncate(tlen);
    for chunk in bytes.chunks(LINE_WIDTH_INCL_NEWLINE) {
        assert_eq!(rec, chunk);
    }
}
