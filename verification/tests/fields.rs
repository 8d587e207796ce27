//! Encoding fields.
use fdb_extract::extract::{slots_for_format, write_field_binary};
use fdb_extract::ods;

fn desc_int64(offset: u32) -> ods::Desc {
    ods::Desc { dtype: ods::DTYPE_INT64, scale: 0, length: 8, sub_type: 0, flags: 0, offset }
}

fn desc_long(offset: u32) -> ods::Desc {
    ods::Desc { dtype: ods::DTYPE_LONG, scale: 0, length: 4, sub_type: 0, flags: 0, offset }
}

fn desc_text(offset: u32, length: u16) -> ods::Desc {
    ods::Desc { dtype: ods::DTYPE_TEXT, scale: 0, length, sub_type: 0, flags: 0, offset }
}

#[test]
fn int64_pk_beyond_buf_emits_null() {
    let rec  = vec![0u8; 5];
    let desc = desc_int64(4);
    let mut out      = Vec::new();
    let mut text_buf = Vec::new();

    write_field_binary(&rec, &desc, &mut out, &mut text_buf);

    assert_eq!(out, (-1i32).to_be_bytes(),
        "INT64 pk beyond buf must emit PGCOPY NULL; DELETE WHERE pk=NULL → 0 rows");
}

#[test]
fn long_pk_beyond_buf_emits_null() {
    let rec  = vec![0u8; 3];
    let desc = desc_long(2);
    let mut out      = Vec::new();
    let mut text_buf = Vec::new();

    write_field_binary(&rec, &desc, &mut out, &mut text_buf);

    assert_eq!(out, (-1i32).to_be_bytes());
}

#[test]
fn int64_pk_within_buf_emits_value() {
    let pk: i64 = 42;
    let mut rec = vec![0u8; 12];
    rec[4..12].copy_from_slice(&pk.to_le_bytes());

    let desc = desc_int64(4);
    let mut out      = Vec::new();
    let mut text_buf = Vec::new();

    write_field_binary(&rec, &desc, &mut out, &mut text_buf);

    assert_eq!(&out[0..4], &8i32.to_be_bytes(), "length prefix must be 8");
    let got = i64::from_be_bytes(out[4..12].try_into().unwrap());
    assert_eq!(got, pk);
}

#[test]
fn text_field_truncated_at_buf_end() {
    let rec  = vec![b'A'; 10];
    let desc = desc_text(0, 20);
    let mut out      = Vec::new();
    let mut text_buf = Vec::new();

    write_field_binary(&rec, &desc, &mut out, &mut text_buf);

    assert_ne!(out, (-1i32).to_be_bytes(), "TEXT truncated at buf end must not emit NULL");
}

#[test]
fn int64_at_offset_zero_within_buf() {
    let pk: i64 = -1;
    let mut rec = vec![0u8; 8];
    rec[0..8].copy_from_slice(&pk.to_le_bytes());

    let desc = desc_int64(0);
    let mut out      = Vec::new();
    let mut text_buf = Vec::new();

    write_field_binary(&rec, &desc, &mut out, &mut text_buf);

    let got = i64::from_be_bytes(out[4..12].try_into().unwrap());
    assert_eq!(got, pk);
}

fn desc_varying(offset: u32, length: u16) -> ods::Desc {
    ods::Desc { dtype: ods::DTYPE_VARYING, scale: 0, length, sub_type: 0, flags: 0, offset }
}

fn written_len(out: &[u8]) -> i32 { i32::from_be_bytes(out[0..4].try_into().unwrap()) }

#[test]
fn wrong_format_offset_overflows_varchar_but_record_format_is_correct() {
    let mut rec = vec![0u8; 64];
    rec[8..10].copy_from_slice(&5u16.to_le_bytes());
    rec[10..15].copy_from_slice(b"HELLO");
    rec[20] = 0x20;
    rec[21] = 0x41;
    for b in &mut rec[22..64] { *b = b'X'; }

    let declared = 7u16;

    let mut out = Vec::new();
    let mut tb  = Vec::new();
    write_field_binary(&rec, &desc_varying(8, declared), &mut out, &mut tb);
    assert_eq!(written_len(&out), 5, "old-format offset must yield the real 'HELLO'");
    assert_eq!(&out[4..9], b"HELLO");

    let mut bad = Vec::new();
    write_field_binary(&rec, &desc_varying(20, declared), &mut bad, &mut tb);
    assert!(written_len(&bad) as usize > (declared - 2) as usize,
        "latest-format offset reads a bogus length that overflows VARCHAR(5) — the bug");
}

#[test]
fn slots_for_format_marks_columns_added_after_record_as_null() {
    let field_order = vec![
        (0usize, "a".to_string()),
        (1, "b".to_string()),
        (2, "c".to_string()),
        (5, "added_later".to_string()),
    ];
    let old_format_descs = vec![desc_long(4), desc_long(8), desc_long(12)];

    let slots = slots_for_format(&field_order, &old_format_descs);
    assert_eq!(slots.len(), 4);
    assert!(slots[0].present && slots[1].present && slots[2].present);
    assert!(!slots[3].present, "field id 5 absent from old format must be NULL");
    assert_eq!(slots[2].null_byte, 0);
    assert_eq!(slots[2].null_mask, 1 << 2);
}
