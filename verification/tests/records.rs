//! Records and their headers.
use fdb_extract::ods::{
    record_transaction, unpack_record_cdc, OdsReader, PAG_DATA, RHD_CHAIN, RHD_DELETED,
    RHD_FRAGMENT, RHD_INCOMPLETE, RHD_LONG_TRANUM,
};

fn make_stub(txn: u64, b_page: u32, b_line: u16, flags: u16, payload: &[u8]) -> Vec<u8> {
    let long = flags & RHD_LONG_TRANUM != 0;
    let hdr  = if long { 16 } else { 13 };
    let mut raw = vec![0u8; hdr + payload.len()];
    raw[0..4].copy_from_slice(&(txn as u32).to_le_bytes());
    raw[4..8].copy_from_slice(&b_page.to_le_bytes());
    raw[8..10].copy_from_slice(&b_line.to_le_bytes());
    raw[10..12].copy_from_slice(&flags.to_le_bytes());
    if long {
        raw[14..16].copy_from_slice(&((txn >> 32) as u16).to_le_bytes());
    }
    raw[hdr..].copy_from_slice(payload);
    raw
}

fn sqz_literal(data: &[u8]) -> Vec<u8> {
    assert!(data.len() <= 127);
    let mut v = vec![data.len() as u8];
    v.extend_from_slice(data);
    v
}

#[test]
fn stub_transaction_short_header() {
    let stub = make_stub(12345, 0, 0, 0, &sqz_literal(&[1, 2, 3]));
    assert_eq!(record_transaction(&stub), Some(12345));
}

#[test]
fn stub_transaction_long_header() {
    let txn   = 18065u64;
    let flags = RHD_DELETED | RHD_LONG_TRANUM;
    let stub  = make_stub(txn, 3340534, 3, flags, &[0u8; 6]);
    assert_eq!(record_transaction(&stub), Some(txn),
        "RHD_LONG_TRANUM: hi word at raw[14..16] must be OR-ed into txn");
}

#[test]
fn stub_transaction_fragment_returns_none() {
    let flags = RHD_FRAGMENT;
    let stub  = make_stub(999, 0, 0, flags, &[0u8; 4]);
    assert_eq!(record_transaction(&stub), None,
        "FRAGMENT records must not be counted as transactions");
}

#[test]
fn live_record_returns_some_false() {
    let stub = make_stub(1000, 0, 0, 0, &sqz_literal(&[0xAA, 0xBB, 0xCC]));
    let mut buf = Vec::new();
    assert_eq!(unpack_record_cdc(&stub, &mut buf), Some(false));
    assert_eq!(buf, vec![0xAA, 0xBB, 0xCC]);
}

#[test]
fn delete_stub_returns_some_true() {
    let flags   = RHD_DELETED | RHD_LONG_TRANUM;
    let payload = sqz_literal(&[0u8; 5]);
    let stub    = make_stub(18065, 3340534, 3, flags, &payload);
    assert_eq!(stub.len(), 22, "matches observed raw_len=22");
    let mut buf = Vec::new();
    assert_eq!(unpack_record_cdc(&stub, &mut buf), Some(true),
        "delete stub must return deleted=true");
}

#[test]
fn delete_stub_buf_too_small_for_int64_pk() {
    let flags   = RHD_DELETED | RHD_LONG_TRANUM;
    let payload = sqz_literal(&[0u8; 5]);
    let stub    = make_stub(18065, 3340534, 3, flags, &payload);

    let mut buf = Vec::new();
    unpack_record_cdc(&stub, &mut buf).unwrap();

    let pk_offset: usize = 4;
    let pk_length: usize = 8;

    assert!(
        pk_offset + pk_length > buf.len(),
        "stub buf ({} bytes) must be too small for PK at [{}..{}]; \
         delete file must follow rhd_b_page/rhd_b_line chain",
        buf.len(), pk_offset, pk_offset + pk_length,
    );
}

#[test]
fn delete_stub_chain_pointers_correct() {
    let b_page: u32 = 3_340_534;
    let b_line: u16 = 3;
    let flags = RHD_DELETED | RHD_LONG_TRANUM;
    let stub  = make_stub(18065, b_page, b_line, flags, &[0u8; 6]);

    let got_b_page = u32::from_le_bytes(stub[4..8].try_into().unwrap());
    let got_b_line = u16::from_le_bytes([stub[8], stub[9]]);
    assert_eq!(got_b_page, b_page);
    assert_eq!(got_b_line, b_line);
}

#[test]
fn chain_follow_logic_on_back_version() {
    let full_pk_value: i64 = 42;
    let mut full_record = vec![0u8; 12];
    full_record[4..12].copy_from_slice(&full_pk_value.to_le_bytes());
    let payload      = sqz_literal(&full_record);
    let back_version = make_stub(18065, 0, 0, RHD_CHAIN, &payload);

    let mut buf = Vec::new();
    let result = unpack_record_cdc(&back_version, &mut buf);
    assert_eq!(result, Some(false), "back version (CHAIN) should decompress OK");
    assert!(buf.len() >= 12, "back version must contain full record data");
    let pk = i64::from_le_bytes(buf[4..12].try_into().unwrap());
    assert_eq!(pk, full_pk_value, "PK extracted from back version must match");
}

fn write_fragmented_db() -> Vec<u8> {
    const PS: usize = 1024;
    let mut buf = vec![0u8; PS * 2];

    buf[16..18].copy_from_slice(&(PS as u16).to_le_bytes());
    buf[18..20].copy_from_slice(&(13u16 | 0x8000).to_le_bytes());

    let p1 = PS;
    buf[p1] = PAG_DATA;
    buf[p1 + 22..p1 + 24].copy_from_slice(&2u16.to_le_bytes());

    let head_off = 64usize;
    let head_payload = sqz_literal(b"HELLO");
    let head_len = 22 + head_payload.len();
    {
        let h = p1 + head_off;
        buf[h + 10..h + 12].copy_from_slice(&RHD_INCOMPLETE.to_le_bytes());
        buf[h + 16..h + 20].copy_from_slice(&1u32.to_le_bytes());
        buf[h + 20..h + 22].copy_from_slice(&1u16.to_le_bytes());
        buf[h + 22..h + 22 + head_payload.len()].copy_from_slice(&head_payload);
    }

    let tail_off = 256usize;
    let tail_payload = sqz_literal(b"WORLD");
    let tail_len = 13 + tail_payload.len();
    {
        let t = p1 + tail_off;
        buf[t + 10..t + 12].copy_from_slice(&RHD_FRAGMENT.to_le_bytes());
        buf[t + 13..t + 13 + tail_payload.len()].copy_from_slice(&tail_payload);
    }

    buf[p1 + 24..p1 + 26].copy_from_slice(&(head_off as u16).to_le_bytes());
    buf[p1 + 26..p1 + 28].copy_from_slice(&(head_len as u16).to_le_bytes());
    buf[p1 + 28..p1 + 30].copy_from_slice(&(tail_off as u16).to_le_bytes());
    buf[p1 + 30..p1 + 32].copy_from_slice(&(tail_len as u16).to_le_bytes());

    buf
}

#[test]
fn reassembles_multi_fragment_record() {
    let file = write_fragmented_db();
    let db = OdsReader::open(&file).unwrap();

    let head = db.read_slot_raw(1, 0).expect("head slot");
    let flags = u16::from_le_bytes([head[10], head[11]]);
    assert!(flags & RHD_INCOMPLETE != 0, "head must carry rhd_incomplete");

    let full = db.reassemble_fragments(head).expect("reassembly");
    assert_eq!(full, b"HELLOWORLD",
        "decompressed fragments must concatenate in order");

    let via_meta = db.unpack_record_meta(head).expect("meta reassembly");
    assert_eq!(via_meta, b"HELLOWORLD");
}

#[test]
fn tail_fragment_alone_is_skipped_by_meta_scan() {
    let file = write_fragmented_db();
    let db = OdsReader::open(&file).unwrap();

    let tail = db.read_slot_raw(1, 1).expect("tail slot");
    assert!(db.unpack_record_meta(tail).is_none(),
        "rhd_fragment continuation must be skipped by unpack_record_meta");
}
