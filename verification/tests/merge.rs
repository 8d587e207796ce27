//! Merging a delta, and reading its bodies.
use fdb_extract::merge::{build_upsert_sql, MergeMeta};
use fdb_extract::wire::{copy_u32_prefixed, ByteReader, WireError};

fn meta(cols: &[&str], pks: &[&str]) -> MergeMeta {
    let q = |c: &str| format!("\"{c}\"");
    MergeMeta {
        pg_table:     "vendas".into(),
        cols_csv:     cols.iter().map(|c| q(c)).collect::<Vec<_>>().join(", "),
        pk_csv:       pks.iter().map(|c| q(c)).collect::<Vec<_>>().join(", "),
        pk_col_names: pks.iter().map(|c| q(c)).collect(),
    }
}

#[test]
fn upsert_sql_updates_only_non_pk_columns() {
    let m = meta(&["nrovenda", "cliente", "total"], &["nrovenda"]);
    let sql = build_upsert_sql(&m, "_stg");
    assert!(sql.contains("ON CONFLICT (\"nrovenda\") DO UPDATE SET"));
    assert!(sql.contains("\"cliente\" = EXCLUDED.\"cliente\""));
    assert!(sql.contains("\"total\" = EXCLUDED.\"total\""));
    assert!(!sql.contains("\"nrovenda\" = EXCLUDED"));
    assert!(sql.contains("FROM \"_stg\""));
}

#[test]
fn upsert_sql_degrades_to_do_nothing_when_all_columns_are_pk() {
    let m = meta(&["nrovenda", "nroitem"], &["nrovenda", "nroitem"]);
    let sql = build_upsert_sql(&m, "_stg");
    assert!(sql.contains("ON CONFLICT (\"nrovenda\", \"nroitem\") DO NOTHING"));
    assert!(!sql.contains("DO UPDATE"));
}

#[test]
fn copy_u32_prefixed_splits_sequential_bodies_in_order() {
    let upsert = b"PGCOPY-upsert-bytes".to_vec();
    let delete = b"del".to_vec();
    let mut wire = Vec::new();
    wire.extend_from_slice(&(upsert.len() as u32).to_be_bytes());
    wire.extend_from_slice(&upsert);
    wire.extend_from_slice(&(delete.len() as u32).to_be_bytes());
    wire.extend_from_slice(&delete);

    let mut r = ByteReader::new(&wire);
    let mut got_u = Vec::new();
    let mut got_d = Vec::new();
    let nu = copy_u32_prefixed(&mut r, &mut got_u).unwrap();
    let nd = copy_u32_prefixed(&mut r, &mut got_d).unwrap();

    assert_eq!(nu, upsert.len() as u64);
    assert_eq!(nd, delete.len() as u64);
    assert_eq!(got_u, upsert);
    assert_eq!(got_d, delete);
}

#[test]
fn copy_u32_prefixed_drains_empty_delete_frame() {
    let mut wire = Vec::new();
    wire.extend_from_slice(&0u32.to_be_bytes());
    wire.extend_from_slice(b"NEXT");
    let mut r = ByteReader::new(&wire);
    let n = copy_u32_prefixed(&mut r, &mut Vec::new()).unwrap();
    assert_eq!(n, 0);
    let rest = r.read(usize::MAX);
    assert_eq!(rest, b"NEXT");
}

#[test]
fn copy_u32_prefixed_errors_on_truncated_body() {
    let mut wire = Vec::new();
    wire.extend_from_slice(&10u32.to_be_bytes());
    wire.extend_from_slice(b"only4");
    let mut r = ByteReader::new(&wire);
    let err = copy_u32_prefixed(&mut r, &mut Vec::new()).unwrap_err();
    assert_eq!(err, WireError::ShortBody);
}
