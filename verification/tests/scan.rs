//! Scanning pages for changes.
use fdb_extract::cdc::{build_slots, pk_pgcopy_stride, SlotInfo, TableCache};
use fdb_extract::extract::write_field_binary;
use fdb_extract::flatpk::{flat_pk_contains, flat_pk_sort_dedup};
use fdb_extract::ods::{self, OdsReader};
use fdb_extract::scan::{scan_changes, scan_changes_into};
use std::collections::HashMap;

const PAGE_SIZE: usize = 4096;
const ODS13_ENC: u16 = 0x800D;

/// A database of a header page and the given pages.
fn write_fdb(extra_pages: Vec<Vec<u8>>) -> Vec<u8> {
    let mut hdr = vec![0u8; PAGE_SIZE];
    hdr[16..18].copy_from_slice(&(PAGE_SIZE as u16).to_le_bytes());
    hdr[18..20].copy_from_slice(&ODS13_ENC.to_le_bytes());
    let mut f = hdr;
    for pg in &extra_pages {
        let mut buf = vec![0u8; PAGE_SIZE];
        let n = pg.len().min(PAGE_SIZE);
        buf[..n].copy_from_slice(&pg[..n]);
        f.extend_from_slice(&buf);
    }
    f
}

fn data_page(pag_gen: u32, records: &[Vec<u8>]) -> Vec<u8> {
    let mut pg = vec![0u8; PAGE_SIZE];
    pg[0] = ods::PAG_DATA;
    pg[4..8].copy_from_slice(&pag_gen.to_le_bytes());
    pg[22..24].copy_from_slice(&(records.len() as u16).to_le_bytes());
    let mut end = PAGE_SIZE;
    for (i, rec) in records.iter().enumerate() {
        end -= rec.len();
        let off = end as u16;
        let len = rec.len() as u16;
        pg[24 + i*4] = (off & 0xFF) as u8;
        pg[25 + i*4] = (off >> 8)   as u8;
        pg[26 + i*4] = (len & 0xFF) as u8;
        pg[27 + i*4] = (len >> 8)   as u8;
        pg[end..end + rec.len()].copy_from_slice(rec);
    }
    pg
}

fn sqz(data: &[u8]) -> Vec<u8> {
    assert!(data.len() <= 127);
    let mut v = vec![data.len() as u8];
    v.extend_from_slice(data);
    v
}

fn payload_i32(value: i32) -> Vec<u8> {
    let mut d = vec![0u8; 4];
    d.extend_from_slice(&value.to_le_bytes());
    sqz(&d)
}

fn live_record(txn: u32, pk: i32) -> Vec<u8> {
    let mut r = vec![0u8; 13];
    r[0..4].copy_from_slice(&txn.to_le_bytes());
    r.extend(payload_i32(pk));
    r
}

fn delete_stub_with_back(txn: u32, b_page: u32, b_line: u16) -> Vec<u8> {
    let mut r = vec![0u8; 13];
    r[0..4].copy_from_slice(&txn.to_le_bytes());
    r[4..8].copy_from_slice(&b_page.to_le_bytes());
    r[8..10].copy_from_slice(&b_line.to_le_bytes());
    r[10..12].copy_from_slice(&1u16.to_le_bytes());
    r.extend(sqz(&[0u8; 4]));
    r
}

fn delete_stub_old_txn(txn: u32) -> Vec<u8> {
    let mut r = vec![0u8; 13];
    r[0..4].copy_from_slice(&txn.to_le_bytes());
    r[10..12].copy_from_slice(&1u16.to_le_bytes());
    r.extend(sqz(&[0u8; 4]));
    r
}

fn make_cache(data_pages: Vec<u32>) -> TableCache {
    let desc = ods::Desc { dtype: ods::DTYPE_LONG, scale: 0, length: 4,
                           sub_type: 0, flags: 0, offset: 4 };
    let slot = SlotInfo { desc, null_byte: 0, null_mask: 1 };
    TableCache {
        relation_id:    0,
        slots:          vec![slot],
        fmt_slots:      vec![],
        col_names:      vec!["\"id\"".to_string()],
        pk_col_names:   vec!["\"id\"".to_string()],
        n_fields:       1,
        n_pk:           1,
        pk_indices:     vec![Some(0)],
        first_pp:       None,
        pp_gen:         0,
        data_pages,
        prev_pks_per_page: HashMap::new(),
        pk_tracked:        true,
        pk_byte_len:       8,
    }
}

#[test]
fn delete_on_unchanged_page_detected() {
    let pag_gen = 7u32;
    let back = live_record(50, 42);
    let del  = delete_stub_with_back(101, 1, 1);
    let pg   = data_page(pag_gen, &[del, back]);
    let file = write_fdb(vec![pg]);
    let db   = OdsReader::open(&file).unwrap();

    let mut page_gens = HashMap::new();
    page_gens.insert(1u32, pag_gen);

    let out = scan_changes(&db, &make_cache(vec![1]), 100, &page_gens);

    assert_eq!(out.deletes, 1, "delete stub on unchanged page must be detected");
    assert_eq!(out.upserts, 0);
}

#[test]
fn upsert_ignored_on_unchanged_page() {
    let pag_gen = 5u32;
    let pg = data_page(pag_gen, &[live_record(101, 99)]);
    let file = write_fdb(vec![pg]);
    let db   = OdsReader::open(&file).unwrap();

    let mut page_gens = HashMap::new();
    page_gens.insert(1u32, pag_gen);

    let out = scan_changes(&db, &make_cache(vec![1]), 100, &page_gens);

    assert_eq!(out.upserts, 0, "live record on unchanged page must not produce upsert");
    assert_eq!(out.deletes, 0);
}

#[test]
fn upsert_on_changed_page_detected() {
    let pg = data_page(8, &[live_record(101, 99)]);
    let file = write_fdb(vec![pg]);
    let db   = OdsReader::open(&file).unwrap();

    let mut page_gens = HashMap::new();
    page_gens.insert(1u32, 7u32);

    let out = scan_changes(&db, &make_cache(vec![1]), 100, &page_gens);

    assert_eq!(out.upserts, 1);
    assert_eq!(out.deletes, 0);
}

#[test]
fn delete_and_upsert_different_pages_same_txn() {
    let back = live_record(50, 42);
    let del  = delete_stub_with_back(101, 1, 1);
    let pg1  = data_page(7, &[del, back]);
    let pg2  = data_page(8, &[live_record(101, 99)]);
    let file = write_fdb(vec![pg1, pg2]);
    let db   = OdsReader::open(&file).unwrap();

    let mut page_gens = HashMap::new();
    page_gens.insert(1u32, 7u32);
    page_gens.insert(2u32, 7u32);

    let out = scan_changes(&db, &make_cache(vec![1, 2]), 100, &page_gens);

    assert_eq!(out.deletes, 1, "delete on unchanged page must be found");
    assert_eq!(out.upserts, 1, "upsert on changed page must be found");
}

#[test]
fn delete_long_tranum_chain_follow_unchanged_page() {
    let back_rec = live_record(50, 42);
    let pg2 = data_page(6, &[back_rec]);

    let mut stub = vec![0u8; 16];
    stub[0..4].copy_from_slice(&101u32.to_le_bytes());
    stub[4..8].copy_from_slice(&2u32.to_le_bytes());
    stub[8..10].copy_from_slice(&0u16.to_le_bytes());
    stub[10..12].copy_from_slice(&(1u16 | 1024u16).to_le_bytes());
    stub.extend(sqz(&[0u8; 5]));

    let pg1 = data_page(7, &[stub]);
    let file = write_fdb(vec![pg1, pg2]);
    let db   = OdsReader::open(&file).unwrap();

    let mut page_gens = HashMap::new();
    page_gens.insert(1u32, 7u32);

    let out = scan_changes(&db, &make_cache(vec![1, 2]), 100, &page_gens);

    assert_eq!(out.deletes, 1, "RHD_LONG_TRANUM delete stub on unchanged page must be detected");
    assert_eq!(out.upserts, 0);
}

#[test]
fn old_txn_ignored() {
    let pg = data_page(9, &[delete_stub_old_txn(50)]);
    let file = write_fdb(vec![pg]);
    let db   = OdsReader::open(&file).unwrap();

    let out = scan_changes(&db, &make_cache(vec![1]), 100, &HashMap::new());

    assert_eq!(out.deletes, 0, "old-txn delete must be ignored");
    assert_eq!(out.upserts, 0);
}

#[test]
fn max_txn_advances() {
    let pg = data_page(10, &[live_record(200, 1), live_record(150, 2)]);
    let file = write_fdb(vec![pg]);
    let db   = OdsReader::open(&file).unwrap();

    let out = scan_changes(&db, &make_cache(vec![1]), 100, &HashMap::new());

    assert_eq!(out.max_txn, 200);
    assert_eq!(out.upserts, 2);
}

#[test]
fn express_delete_detected_via_pk_snapshot_diff() {
    let pg_initial = data_page(7, &[live_record(50, 10), live_record(50, 20)]);
    let file = write_fdb(vec![pg_initial]);
    let db   = OdsReader::open(&file).unwrap();

    let mut cache = make_cache(vec![1]);
    let mut page_gens = HashMap::new();

    let out1 = scan_changes(&db, &cache, 100, &page_gens);
    assert_eq!(out1.deletes, 0, "first cycle must not emit deletes");
    page_gens.extend(out1.new_gens);
    cache.prev_pks_per_page = out1.new_pks_per_page;
    assert_eq!(cache.prev_pks_per_page.get(&1).map(|v| v.len() / 8), Some(2));

    let pg_after = data_page(8, &[live_record(50, 10)]);
    let file2 = write_fdb(vec![pg_after]);
    let db2   = OdsReader::open(&file2).unwrap();

    let out2 = scan_changes(&db2, &cache, 100, &page_gens);

    assert_eq!(out2.express_deletes, 1, "vanished PK must be detected as express-delete");
    assert_eq!(out2.deletes, 1);
}

#[test]
fn express_delete_skipped_when_pk_still_present_elsewhere() {
    let pg1 = data_page(7, &[live_record(50, 10), live_record(50, 20)]);
    let pg2 = data_page(7, &[]);
    let file = write_fdb(vec![pg1, pg2]);
    let db   = OdsReader::open(&file).unwrap();

    let mut cache = make_cache(vec![1, 2]);
    let mut page_gens = HashMap::new();

    let out1 = scan_changes(&db, &cache, 100, &page_gens);
    page_gens.extend(out1.new_gens);
    cache.prev_pks_per_page = out1.new_pks_per_page;

    let pg1b = data_page(8, &[live_record(50, 10)]);
    let pg2b = data_page(8, &[live_record(50, 20)]);
    let file2 = write_fdb(vec![pg1b, pg2b]);
    let db2   = OdsReader::open(&file2).unwrap();

    let out2 = scan_changes(&db2, &cache, 100, &page_gens);

    assert_eq!(out2.express_deletes, 0, "PK present on another page must not count as delete");
}

#[test]
fn new_gens_only_for_changed_pages() {
    let pg1 = data_page(7, &[delete_stub_old_txn(50)]);
    let pg2 = data_page(9, &[live_record(101, 2)]);
    let file = write_fdb(vec![pg1, pg2]);
    let db   = OdsReader::open(&file).unwrap();

    let mut page_gens = HashMap::new();
    page_gens.insert(1u32, 7u32);
    page_gens.insert(2u32, 7u32);

    let out = scan_changes(&db, &make_cache(vec![1, 2]), 100, &page_gens);

    assert!(!out.new_gens.contains_key(&1), "unchanged page must not enter new_gens");
    assert!(out.new_gens.contains_key(&2),  "changed page must enter new_gens");
    assert_eq!(out.new_gens[&2], 9u32);
}

#[test]
fn multi_level_chain_follow_through_fragment() {
    let full_rec = live_record(50, 77);
    let pg3 = data_page(5, &[full_rec]);

    let mut fragment = vec![0u8; 13];
    fragment[0..4].copy_from_slice(&50u32.to_le_bytes());
    fragment[4..8].copy_from_slice(&3u32.to_le_bytes());
    fragment[8..10].copy_from_slice(&0u16.to_le_bytes());
    fragment[10..12].copy_from_slice(&(ods::RHD_CHAIN | ods::RHD_FRAGMENT).to_le_bytes());
    fragment.extend(sqz(&[0u8; 4]));
    let pg2 = data_page(5, &[fragment]);

    let del = delete_stub_with_back(101, 2, 0);
    let pg1 = data_page(7, &[del]);

    let file = write_fdb(vec![pg1, pg2, pg3]);
    let db   = OdsReader::open(&file).unwrap();

    let mut page_gens = HashMap::new();
    page_gens.insert(1u32, 7u32);

    let out = scan_changes(&db, &make_cache(vec![1]), 100, &page_gens);

    assert_eq!(out.deletes, 1,
        "delete must be resolved via 2-level chain follow through RHD_CHAIN|RHD_FRAGMENT");
    assert_eq!(out.upserts, 0);
}

#[test]
fn chain_follow_stops_on_non_chain_flags() {
    let mut blob_rec = vec![0u8; 13];
    blob_rec[0..4].copy_from_slice(&50u32.to_le_bytes());
    blob_rec[10..12].copy_from_slice(&ods::RHD_BLOB.to_le_bytes());
    blob_rec.extend(sqz(&[0u8; 4]));
    let pg2 = data_page(5, &[blob_rec]);

    let del = delete_stub_with_back(101, 2, 0);
    let pg1 = data_page(7, &[del]);

    let file = write_fdb(vec![pg1, pg2]);
    let db   = OdsReader::open(&file).unwrap();

    let mut page_gens = HashMap::new();
    page_gens.insert(1u32, 7u32);

    let out = scan_changes(&db, &make_cache(vec![1]), 100, &page_gens);

    assert_eq!(out.deletes, 0,
        "delete with unresolvable chain must be skipped, not emitted");
}

#[test]
fn express_delete_multi_page_no_false_positive() {
    let pg1 = data_page(7, &[live_record(50, 10)]);
    let pg2 = data_page(7, &[live_record(50, 20)]);
    let pg3 = data_page(7, &[live_record(50, 30)]);
    let file = write_fdb(vec![pg1, pg2, pg3]);
    let db   = OdsReader::open(&file).unwrap();

    let mut cache = make_cache(vec![1, 2, 3]);
    let mut page_gens = HashMap::new();

    let out1 = scan_changes(&db, &cache, 100, &page_gens);
    page_gens.extend(out1.new_gens);
    cache.prev_pks_per_page = out1.new_pks_per_page;

    let pg1b = data_page(8, &[live_record(50, 10)]);
    let pg2b = data_page(8, &[]);
    let pg3b = data_page(8, &[live_record(50, 30)]);
    let file2 = write_fdb(vec![pg1b, pg2b, pg3b]);
    let db2   = OdsReader::open(&file2).unwrap();

    let out2 = scan_changes(&db2, &cache, 100, &page_gens);

    assert_eq!(out2.express_deletes, 1, "only PK 20 (truly gone) should be express-deleted");
    assert_eq!(out2.deletes, 1);
}

#[test]
fn hdr_gen_readable_from_fdb() {
    let file = write_fdb(vec![]);
    let db   = OdsReader::open(&file).unwrap();

    let hdr = db.page(0);
    let gen = u32::from_le_bytes(hdr[4..8].try_into().unwrap());

    let _ = gen;
}

#[test]
fn hdr_gen_change_triggers_scan() {
    let make_fdb_with_gen = |gen: u32| -> Vec<u8> {
        let mut hdr = vec![0u8; PAGE_SIZE];
        hdr[16..18].copy_from_slice(&(PAGE_SIZE as u16).to_le_bytes());
        hdr[18..20].copy_from_slice(&ODS13_ENC.to_le_bytes());
        hdr[4..8].copy_from_slice(&gen.to_le_bytes());
        hdr
    };

    let file_a = make_fdb_with_gen(5);
    let file_b = make_fdb_with_gen(6);

    let db_a = OdsReader::open(&file_a).unwrap();
    let db_b = OdsReader::open(&file_b).unwrap();

    let gen_a = u32::from_le_bytes(db_a.page(0)[4..8].try_into().unwrap());
    let gen_b = u32::from_le_bytes(db_b.page(0)[4..8].try_into().unwrap());

    assert_ne!(gen_a, gen_b, "different hdr_gen values must produce different reads");
    let mut last = None::<u32>;
    let changed_a = last != Some(gen_a); last = Some(gen_a);
    let changed_b = last != Some(gen_b); last = Some(gen_b);
    let changed_b2 = last != Some(gen_b);
    assert!(changed_a,  "first read must be changed");
    assert!(changed_b,  "different gen must be changed");
    assert!(!changed_b2, "same gen repeated must not be changed");
}

#[test]
fn missing_pk_index_not_tracked() {
    let desc = ods::Desc { dtype: ods::DTYPE_LONG, scale: 0, length: 4,
                           sub_type: 0, flags: 0, offset: 4 };
    let slot = SlotInfo { desc, null_byte: 0, null_mask: 1 };
    let cache = TableCache {
        relation_id:    0,
        slots:          vec![slot],
        fmt_slots:      vec![],
        col_names:      vec!["\"id\"".to_string()],
        pk_col_names:   vec!["\"nonexistent\"".to_string()],
        n_fields:       1,
        n_pk:           1,
        pk_indices:     vec![None],
        first_pp:       None,
        pp_gen:         0,
        data_pages:     vec![],
        prev_pks_per_page: HashMap::new(),
        pk_tracked:        false,
        pk_byte_len:       0,
    };

    assert!(!cache.pk_tracked, "missing pk index must disable pk_tracked");

    let del = delete_stub_with_back(101, 1, 0);
    let pg  = data_page(9, &[del]);
    let file = write_fdb(vec![pg]);
    let db   = OdsReader::open(&file).unwrap();

    let mut c = cache;
    c.data_pages = vec![1];

    let out = scan_changes(&db, &c, 100, &HashMap::new());

    assert_eq!(out.deletes, 0, "untracked-pk table must not emit deletes");
}

#[test]
fn pk_stride_computed_correctly() {
    let make_slot = |dtype: u8, scale: i8| -> SlotInfo {
        SlotInfo {
            desc: ods::Desc { dtype, scale, length: 0, sub_type: 0, flags: 0, offset: 0 },
            null_byte: 0,
            null_mask: 1,
        }
    };

    let slots_i32 = vec![make_slot(ods::DTYPE_LONG, 0)];
    assert_eq!(pk_pgcopy_stride(&[Some(0)], &slots_i32), 8,  "INTEGER = 4+4");

    let slots_i64 = vec![make_slot(ods::DTYPE_INT64, 0)];
    assert_eq!(pk_pgcopy_stride(&[Some(0)], &slots_i64), 12, "INT64 = 4+8");

    let slots_date = vec![make_slot(ods::DTYPE_SQL_DATE, 0)];
    assert_eq!(pk_pgcopy_stride(&[Some(0)], &slots_date), 8, "DATE = 4+4");

    let slots_comp = vec![make_slot(ods::DTYPE_LONG, 0), make_slot(ods::DTYPE_INT64, 0)];
    assert_eq!(pk_pgcopy_stride(&[Some(0), Some(1)], &slots_comp), 20, "composite");

    let slots_varchar = vec![make_slot(ods::DTYPE_VARYING, 0)];
    assert_eq!(pk_pgcopy_stride(&[Some(0)], &slots_varchar), 0, "VARCHAR = 0 (variable)");

    assert_eq!(pk_pgcopy_stride(&[None], &slots_i32), 0, "None index = 0");
}

#[test]
fn flat_pk_sort_dedup_works() {
    let stride = 4;
    let mut flat: Vec<u8> = vec![];
    flat.extend_from_slice(&3u32.to_be_bytes());
    flat.extend_from_slice(&1u32.to_be_bytes());
    flat.extend_from_slice(&2u32.to_be_bytes());
    flat.extend_from_slice(&1u32.to_be_bytes());

    flat_pk_sort_dedup(&mut flat, stride);

    assert_eq!(flat.len() / stride, 3, "duplicate removed");
    let vals: Vec<u32> = flat.chunks_exact(stride)
        .map(|c| u32::from_be_bytes(c.try_into().unwrap()))
        .collect();
    assert_eq!(vals, vec![1, 2, 3], "sorted ascending");
}

#[test]
fn flat_pk_contains_binary_search() {
    let stride = 4;
    let mut flat: Vec<u8> = vec![];
    for v in [10u32, 20, 30, 40, 50] {
        flat.extend_from_slice(&v.to_be_bytes());
    }

    assert!( flat_pk_contains(&flat, stride, &20u32.to_be_bytes()), "present");
    assert!( flat_pk_contains(&flat, stride, &10u32.to_be_bytes()), "first");
    assert!( flat_pk_contains(&flat, stride, &50u32.to_be_bytes()), "last");
    assert!(!flat_pk_contains(&flat, stride, &15u32.to_be_bytes()), "absent");
    assert!(!flat_pk_contains(&flat, stride, &0u32.to_be_bytes()),  "before first");
    assert!(!flat_pk_contains(&flat, stride, &99u32.to_be_bytes()), "after last");
    assert!(!flat_pk_contains(&[], stride, &10u32.to_be_bytes()),   "empty flat");
}

#[test]
fn snapshot_memory_is_flat_not_per_vec() {
    let n_records: usize = 100;
    let stride = 8;

    let records: Vec<Vec<u8>> = (1..=n_records as i32)
        .map(|pk| live_record(50, pk))
        .collect();
    let pg = data_page(5, &records);
    let file = write_fdb(vec![pg]);
    let db   = OdsReader::open(&file).unwrap();

    let out = scan_changes(&db, &make_cache(vec![1]), 100, &HashMap::new());

    let snapshot = out.new_pks_per_page.get(&1).expect("snapshot must exist");
    assert_eq!(snapshot.len(), n_records * stride,
        "snapshot must be exactly n_records×stride bytes (flat), got {} bytes for {} records",
        snapshot.len(), n_records);
}

#[test]
fn null_mask_zero_byte_encodes_value_not_null() {
    let mut rec_buf = vec![0u8; 8];
    let value: i32 = 42;
    rec_buf[4..8].copy_from_slice(&value.to_le_bytes());

    let desc = ods::Desc { dtype: ods::DTYPE_LONG, scale: 0, length: 4,
                           sub_type: 0, flags: 0, offset: 4 };
    let slot = SlotInfo { desc: desc.clone(), null_byte: 0, null_mask: 1 };

    let nb = rec_buf.get(slot.null_byte).copied().unwrap_or(0xFF);
    assert_eq!(nb, 0u8);
    assert!(nb & slot.null_mask == 0, "null_byte=0 must not trigger null sentinel");

    let mut out = Vec::new();
    let mut text_buf = Vec::new();
    write_field_binary(&rec_buf, &desc, &mut out, &mut text_buf);

    assert_eq!(out.len(), 8);
    let encoded = i32::from_be_bytes(out[4..8].try_into().unwrap());
    assert_eq!(encoded, value);
}

#[test]
fn build_slots_marks_columns_added_after_format_as_null() {
    let field_order = vec![
        (0usize, "a".to_string()),
        (1, "b".to_string()),
        (5, "added_later".to_string()),
    ];
    let descs = vec![
        ods::Desc { dtype: ods::DTYPE_LONG, scale: 0, length: 4, sub_type: 0, flags: 0, offset: 4 },
        ods::Desc { dtype: ods::DTYPE_LONG, scale: 0, length: 4, sub_type: 0, flags: 0, offset: 8 },
        ods::Desc { dtype: ods::DTYPE_LONG, scale: 0, length: 4, sub_type: 0, flags: 0, offset: 12 },
    ];
    let slots = build_slots(&field_order, &descs);
    assert_eq!(slots.len(), 3);
    assert_eq!(slots[0].desc.dtype, ods::DTYPE_LONG);
    assert_eq!(slots[2].desc.dtype, 0, "absent column → zero desc → write_field_binary NULL");
}

#[test]
fn scan_upsert_decodes_with_record_format_not_latest() {
    let good = SlotInfo {
        desc: ods::Desc { dtype: ods::DTYPE_LONG, scale: 0, length: 4, sub_type: 0, flags: 0, offset: 4 },
        null_byte: 0, null_mask: 1,
    };
    let bogus = SlotInfo {
        desc: ods::Desc { dtype: ods::DTYPE_LONG, scale: 0, length: 4, sub_type: 0, flags: 0, offset: 99 },
        null_byte: 0, null_mask: 1,
    };
    let mut fmt_slots: Vec<Option<Vec<SlotInfo>>> = (0..256).map(|_| None).collect();
    fmt_slots[0] = Some(vec![good]);

    let cache = TableCache {
        relation_id: 0,
        slots: vec![bogus],
        fmt_slots,
        col_names: vec!["\"id\"".to_string()],
        pk_col_names: vec!["\"id\"".to_string()],
        n_fields: 1, n_pk: 1,
        pk_indices: vec![Some(0)],
        first_pp: None, pp_gen: 0,
        data_pages: vec![1],
        prev_pks_per_page: HashMap::new(),
        pk_tracked: true, pk_byte_len: 8,
    };

    let pag_gen = 5u32;
    let pg   = data_page(pag_gen, &[live_record(200, 42)]);
    let file = write_fdb(vec![pg]);
    let db   = OdsReader::open(&file).unwrap();

    let mut upserts = Vec::<u8>::new();
    let page_gens = HashMap::new();
    let out = scan_changes_into(&db, &cache, 100, &page_gens, &mut upserts);

    assert_eq!(out.upserts, 1, "changed page with a new txn must emit one upsert");
    let needle = 42i32.to_be_bytes();
    assert!(upserts.windows(4).any(|w| w == needle),
        "upsert must decode pk via fmt_slots[0] (offset 4 → 42), not latest slots (offset 99 → NULL)");
}
