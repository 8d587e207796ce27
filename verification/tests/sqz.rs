//! Unpacking runs.
use fdb_extract::sqz::{decompress, decompress_into};

#[test]
fn empty_input() {
    assert_eq!(decompress(&[]), Some(vec![]));
}

#[test]
fn nop_ctrl_zero() {
    assert_eq!(decompress(&[0]), Some(vec![]));
    assert_eq!(decompress(&[0, 0, 0]), Some(vec![]));
}

#[test]
fn copy_run() {
    let input = [3u8, 0x07, 0x14, 0x30];
    assert_eq!(decompress(&input), Some(vec![0x07, 0x14, 0x30]));
}

#[test]
fn repeat_run() {
    let input = [0xFBu8, 0x2A];
    assert_eq!(decompress(&input), Some(vec![0x2A; 5]));
}

#[test]
fn repeat_i8_min() {
    let input = [0x80u8, 0xFF];
    let out = decompress(&input).unwrap();
    assert_eq!(out.len(), 128);
    assert!(out.iter().all(|&b| b == 0xFF));
}

#[test]
fn extended_u16_count() {
    let count: u16 = 500;
    let mut input = vec![0xFFu8];
    input.extend_from_slice(&count.to_le_bytes());
    input.push(0xAB);
    let out = decompress(&input).unwrap();
    assert_eq!(out.len(), 500);
    assert!(out.iter().all(|&b| b == 0xAB));
}

#[test]
fn mixed_runs() {
    let input = [
        0x03u8, 0x07, 0x14, 0x30,
        0x87, 0x2A,
        0x00,
        0x01, 0x41,
    ];
    let out = decompress(&input).unwrap();
    assert_eq!(out.len(), 3 + 121 + 1);
    assert_eq!(&out[..3], &[0x07, 0x14, 0x30]);
    assert!(out[3..3+121].iter().all(|&b| b == 0x2A));
    assert_eq!(out[3+121], 0x41);
}

#[test]
fn truncated_copy_returns_none() {
    let input = [10u8, 0x01, 0x02, 0x03];
    assert_eq!(decompress(&input), None);
}

#[test]
fn truncated_repeat_returns_none() {
    let input = [0xFBu8];
    assert_eq!(decompress(&input), None);
}

#[test]
fn truncated_u16_count_returns_none() {
    let input = [0xFFu8, 0x01];
    assert_eq!(decompress(&input), None);
}

#[test]
fn a_record_has_a_greatest_size() {
    let run = |n: u32| {
        let mut v = vec![0xFEu8];
        v.extend_from_slice(&n.to_le_bytes());
        v.push(7);
        v
    };
    assert_eq!(decompress(&run(256 * 1024)).map(|v| v.len()), Some(256 * 1024));
    assert_eq!(decompress(&run(256 * 1024 + 1)), None);
    let mut two = run(256 * 1024);
    two.extend_from_slice(&[1, 9]);
    assert_eq!(decompress(&two), None);
    assert_eq!(decompress(&[0xFE, 1, 0, 0]), None);
}

#[test]
fn a_buffer_is_filled_anew() {
    let mut out = vec![1, 2, 3];
    assert!(decompress_into(&[2, 8, 9], &mut out));
    assert_eq!(out, vec![8, 9]);
    assert!(!decompress_into(&[2, 8], &mut out));
}
