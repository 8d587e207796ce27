//! A whole database: its catalogue, its tables, and what becomes of them.
use fdb_extract::blob::BlobId;
use fdb_extract::cdc::TableCache;
use fdb_extract::checked::{
    try_blob, try_copy_slots, try_copy_stream, try_create_table, try_create_table_sql,
    try_inspect_relation, try_list_constraints, try_list_tables, try_migrate, try_migrate_all,
    try_migrate_table, try_plan_load, try_primary_key,
};
use fdb_extract::cli::Args;
use fdb_extract::extract::{
    copy_slots, progress_due, write_copy_stream, CopyRows, CopyStream, StreamStep,
};
use fdb_extract::gateway::plan_full;
use fdb_extract::inspect::{inspect_relation, show_page, show_relation, show_slot, SlotReport};
use fdb_extract::merge::{ApplyTiming, MergeMeta};
use fdb_extract::migrate::{migrate, migrate_all, migrate_list, migrate_table, plan_load, MigrateStats};
use fdb_extract::ods::{
    self, Desc, OdsError, OdsReader, DTYPE_LONG, DTYPE_VARYING, PAG_DATA, PAG_POINTER, RHD_BLOB,
    RHD_DELETED, RHD_INCOMPLETE, RHD_NOT_PACKED,
};
use fdb_extract::ready::{cache_fits, is_syncable};
use fdb_extract::scan::encode_pk_pgcopy;
use fdb_extract::schema::{create_table_sql, create_table_sql_from, fb_type_to_pg};
use fdb_extract::sink::{DeltaSink, SinkError};
use fdb_extract::snapshot::{load_snapshots, save_snapshots};
use fdb_extract::sync::{new_cache, sync_table, SyncError};
use fdb_extract::watch::{header_gen, pause_ticks, CdcState, Said, TableOutcome, Turn, Watch};
use fdb_extract::wire::FullHeader;
use std::collections::HashMap;

// ── Building a database ──────────────────────────────────────────────────────

const PAGE: usize = 4096;

struct Builder {
    pages: Vec<Vec<u8>>,
    relations: Vec<(u16, u32)>,
}

fn put16(b: &mut [u8], at: usize, v: u16) {
    b[at..at + 2].copy_from_slice(&v.to_le_bytes());
}

fn put32(b: &mut [u8], at: usize, v: u32) {
    b[at..at + 4].copy_from_slice(&v.to_le_bytes());
}

fn put_text(b: &mut [u8], at: usize, len: usize, s: &str) {
    for x in &mut b[at..at + len] {
        *x = b' ';
    }
    b[at..at + s.len()].copy_from_slice(s.as_bytes());
}

/// A record that is stored as it is.
fn record(txn: u32, data: &[u8]) -> Vec<u8> {
    let mut r = vec![0u8; 13];
    put32(&mut r, 0, txn);
    put16(&mut r, 10, RHD_NOT_PACKED);
    r.extend_from_slice(data);
    r
}

fn data_page(gen: u32, sequence: u32, records: &[Vec<u8>]) -> Vec<u8> {
    let mut p = vec![0u8; PAGE];
    p[0] = PAG_DATA;
    put32(&mut p, 4, gen);
    put32(&mut p, 16, sequence);
    put16(&mut p, 22, records.len() as u16);
    let mut end = PAGE;
    for (i, r) in records.iter().enumerate() {
        end -= r.len();
        p[end..end + r.len()].copy_from_slice(r);
        put16(&mut p, 24 + 4 * i, end as u16);
        put16(&mut p, 26 + 4 * i, r.len() as u16);
    }
    p
}

impl Builder {
    fn new() -> Self {
        Builder { pages: vec![vec![0u8; PAGE]], relations: Vec::new() }
    }

    fn page(&mut self, p: Vec<u8>) -> u32 {
        self.pages.push(p);
        self.pages.len() as u32 - 1
    }

    fn pointer_page(&mut self, gen: u32, data_pages: &[u32]) -> u32 {
        let mut p = vec![0u8; PAGE];
        p[0] = PAG_POINTER;
        p[1] = 1;
        put32(&mut p, 4, gen);
        put16(&mut p, 24, data_pages.len() as u16);
        for (i, n) in data_pages.iter().enumerate() {
            put32(&mut p, 32 + 4 * i, *n);
        }
        self.page(p)
    }

    fn relation(&mut self, rid: u16, pages: Vec<Vec<u8>>) -> u32 {
        let numbers: Vec<u32> = pages.into_iter().map(|p| self.page(p)).collect();
        let pp = self.pointer_page(1, &numbers);
        self.relations.push((rid, pp));
        pp
    }

    /// Writes RDB$PAGES and the header.
    fn finish(mut self, hdr_gen: u32) -> Vec<u8> {
        let records: Vec<Vec<u8>> = self
            .relations
            .clone()
            .iter()
            .map(|(rid, pp)| {
                let mut d = vec![0u8; 18];
                put32(&mut d, 4, *pp);
                put16(&mut d, 8, *rid);
                put16(&mut d, 16, 4);
                record(1, &d)
            })
            .collect();
        let n = self.page(data_page(1, 0, &records));
        let pp0 = self.pointer_page(1, &[n]);
        let h = &mut self.pages[0];
        put32(h, 4, hdr_gen);
        put16(h, 16, PAGE as u16);
        put16(h, 18, 0x8000 | 13);
        put32(h, 20, pp0);
        self.pages.concat()
    }
}

fn relation_record(id: u16, name: &str, view: bool) -> Vec<u8> {
    let mut d = vec![0u8; 294];
    d[0] = if view { 0 } else { 1 };
    put16(&mut d, 32, id);
    put_text(&mut d, 42, 252, name);
    record(1, &d)
}

fn field_record(table: &str, name: &str, position: u16, id: u16) -> Vec<u8> {
    let mut d = vec![0u8; 1412];
    put_text(&mut d, 4, 252, name);
    put_text(&mut d, 256, 252, table);
    put16(&mut d, 1394, position);
    put16(&mut d, 1410, id);
    record(1, &d)
}

fn constraint_record(table: &str, kind: &str, index: &str) -> Vec<u8> {
    let mut d = vec![0u8; 777];
    put_text(&mut d, 256, 11, kind);
    put_text(&mut d, 267, 252, table);
    put_text(&mut d, 525, 252, index);
    record(1, &d)
}

fn segment_record(index: &str, column: &str, position: u16) -> Vec<u8> {
    let mut d = vec![0u8; 510];
    put_text(&mut d, 4, 252, index);
    put_text(&mut d, 256, 252, column);
    put16(&mut d, 508, position);
    record(1, &d)
}

fn format_record(rid: u16, version: u16, blob: u32) -> Vec<u8> {
    let mut d = vec![0u8; 16];
    put16(&mut d, 4, rid);
    put16(&mut d, 6, version);
    put16(&mut d, 8, 8);
    put32(&mut d, 12, blob);
    record(1, &d)
}

/// A format as a blob that lies in its record.
fn format_blob(descs: &[Desc]) -> Vec<u8> {
    let mut data = (descs.len() as u16).to_le_bytes().to_vec();
    for d in descs {
        data.push(d.dtype);
        data.push(d.scale as u8);
        data.extend_from_slice(&d.length.to_le_bytes());
        data.extend_from_slice(&d.sub_type.to_le_bytes());
        data.extend_from_slice(&d.flags.to_le_bytes());
        data.extend_from_slice(&d.offset.to_le_bytes());
    }
    let mut r = vec![0u8; 28];
    put16(&mut r, 10, RHD_BLOB | 0x20);
    put32(&mut r, 20, data.len() as u32);
    r.extend_from_slice(&data);
    while r.len() < 32 {
        r.push(0);
    }
    r
}

fn desc(dtype: u8, length: u16, offset: u32) -> Desc {
    Desc { dtype, scale: 0, length, sub_type: 0, flags: 0, offset }
}

fn client_descs() -> Vec<Desc> {
    vec![desc(DTYPE_LONG, 4, 4), desc(DTYPE_VARYING, 22, 8)]
}

/// A row of CLIENTES.
fn client(txn: u32, id: i32, name: &str) -> Vec<u8> {
    let mut d = vec![0u8; 30];
    d[4..8].copy_from_slice(&id.to_le_bytes());
    put16(&mut d, 8, name.len() as u16);
    d[10..10 + name.len()].copy_from_slice(name.as_bytes());
    record(txn, &d)
}

fn deleted(mut r: Vec<u8>) -> Vec<u8> {
    put16(&mut r, 10, RHD_NOT_PACKED | RHD_DELETED);
    r
}

const CLIENTES: u16 = 128;

/// A database with the table CLIENTES, a table without a key, and a view.
fn database(hdr_gen: u32, pages: Vec<Vec<u8>>) -> Vec<u8> {
    let mut b = Builder::new();
    b.relation(
        6,
        vec![data_page(
            1,
            0,
            &[
                relation_record(CLIENTES, "CLIENTES", false),
                relation_record(129, "AVISOS", false),
                relation_record(130, "V_CLIENTES", true),
            ],
        )],
    );
    b.relation(
        5,
        vec![data_page(
            1,
            0,
            &[field_record("CLIENTES", "NOME", 1, 1), field_record("CLIENTES", "CODIGO", 0, 0)],
        )],
    );
    b.relation(
        22,
        vec![data_page(
            1,
            0,
            &[
                constraint_record("CLIENTES", "NOT NULL", ""),
                constraint_record("CLIENTES", "PRIMARY KEY", "RDB$PRIMARY1"),
            ],
        )],
    );
    b.relation(3, vec![data_page(1, 0, &[segment_record("RDB$PRIMARY1", "CODIGO", 0)])]);
    b.relation(
        8,
        vec![data_page(
            1,
            0,
            &[format_record(CLIENTES, 0, 1), format_blob(&client_descs())],
        )],
    );
    b.relation(CLIENTES, pages);
    b.finish(hdr_gen)
}

fn two_clients() -> Vec<u8> {
    database(7, vec![data_page(3, 0, &[client(50, 1, "Ana"), client(60, 2, "Bia")])])
}

// ── The catalogue ────────────────────────────────────────────────────────────

#[test]
fn user_tables_are_listed_in_order_and_views_are_not() {
    let file = two_clients();
    let db = OdsReader::open(&file).unwrap();
    assert_eq!(db.list_tables(), vec!["AVISOS".to_string(), "CLIENTES".to_string()]);
}

#[test]
fn a_table_is_found_by_its_name_in_any_case() {
    let file = two_clients();
    let db = OdsReader::open(&file).unwrap();
    assert_eq!(db.find_relation_id("CLIENTES").unwrap(), 128);
    assert_eq!(db.find_relation_id("clientes").unwrap(), 128);
    assert_eq!(db.find_relation_id("Avisos").unwrap(), 129);
    assert!(matches!(db.find_relation_id("NADA"), Err(OdsError::TableNotFound)));
}

#[test]
fn columns_come_by_position() {
    let file = two_clients();
    let db = OdsReader::open(&file).unwrap();
    let cols = db.read_field_names(CLIENTES, "clientes").unwrap();
    assert_eq!(cols, vec![(0, "CODIGO".to_string()), (1, "NOME".to_string())]);
    assert!(matches!(db.read_field_names(129, "AVISOS"), Err(OdsError::NoFields(129))));
}

#[test]
fn the_key_is_found_through_its_index() {
    let file = two_clients();
    let db = OdsReader::open(&file).unwrap();
    assert_eq!(db.find_pk_index_name("clientes").unwrap(), "RDB$PRIMARY1");
    assert_eq!(db.read_primary_key_fields("clientes").unwrap(), vec!["CODIGO".to_string()]);
    assert!(matches!(db.read_primary_key_fields("AVISOS"), Err(OdsError::NoPrimaryKey)));
    assert!(matches!(db.find_index_field_names("NADA"), Err(OdsError::NoIndexSegments)));
    let kinds = db.list_constraints("clientes");
    assert_eq!(kinds, vec!["NOT NULL".to_string(), "PRIMARY KEY".to_string()]);
}

#[test]
fn formats_are_read_from_their_blob() {
    let file = two_clients();
    let db = OdsReader::open(&file).unwrap();
    let descs = db.read_format(CLIENTES, u16::MAX).unwrap();
    assert_eq!(descs.len(), 2);
    assert_eq!(descs[0].dtype, DTYPE_LONG);
    assert_eq!(descs[1].offset, 8);
    assert!(matches!(db.read_format(CLIENTES, 3), Err(OdsError::FormatNotFound(128, 3))));
    assert!(matches!(db.read_format(129, u16::MAX), Err(OdsError::NoFormats(129))));
}

#[test]
fn a_catalogue_that_is_not_there_is_an_error() {
    let file = Builder::new().finish(1);
    let db = OdsReader::open(&file).unwrap();
    assert!(db.list_tables().is_empty());
    assert!(migrate_all(&db).is_none());
    assert!(matches!(db.find_relation_id("X"), Err(OdsError::NoPointerPage(6))));
    assert!(matches!(db.read_field_names(1, "X"), Err(OdsError::NoPointerPage(5))));
    assert!(matches!(db.find_pk_index_name("X"), Err(OdsError::NoPointerPage(22))));
    assert!(matches!(db.find_index_field_names("X"), Err(OdsError::NoPointerPage(3))));
}

#[test]
fn a_format_that_is_cut_off_is_an_error() {
    let format = |blob: Vec<u8>| -> Result<Vec<Desc>, OdsError> {
        let mut b = Builder::new();
        b.relation(8, vec![data_page(1, 0, &[format_record(CLIENTES, 0, 1), blob])]);
        let file = b.finish(1);
        OdsReader::open(&file).unwrap().read_format(CLIENTES, u16::MAX)
    };
    let mut one_byte = format_blob(&[]);
    put32(&mut one_byte, 20, 1);
    assert!(matches!(format(one_byte), Err(OdsError::FormatTooShort(1))));
    let mut short = format_blob(&client_descs());
    put32(&mut short, 20, 14);
    assert!(matches!(format(short), Err(OdsError::FormatTruncated(14, 26, 2))));
    let mut long = format_blob(&client_descs());
    put32(&mut long, 20, 100);
    assert!(matches!(format(long), Err(OdsError::StreamBlobTruncated(54, 128))));
    let mut elsewhere = format_blob(&client_descs());
    put16(&mut elsewhere, 10, 0);
    assert!(matches!(format(elsewhere), Err(OdsError::BlobHeaderNotFound(8, 0, 1))));
    let mut outside = format_blob(&client_descs());
    put32(&mut outside, 0, 9999);
    put32(&mut outside, 4, 1);
    outside[12] = 2;
    assert!(matches!(format(outside), Err(OdsError::BlobPageOutside(9999))));
    let mut no_blob = format_blob(&client_descs());
    put32(&mut no_blob, 0, 1);
    put32(&mut no_blob, 4, 1);
    no_blob[12] = 2;
    assert!(matches!(format(no_blob), Err(OdsError::NotABlobPage(1, 5))));
}

#[test]
fn headers_that_are_no_database_are_refused() {
    assert!(matches!(OdsReader::open(&[0u8; 100]), Err(OdsError::TooSmall)));
    let header = |page: u16, ods: u16| {
        let mut h = vec![0u8; 256];
        put16(&mut h, 16, page);
        put16(&mut h, 18, ods);
        h
    };
    assert!(matches!(
        OdsReader::open(&header(512, 0x800D)),
        Err(OdsError::InvalidPageSize(512))
    ));
    assert!(matches!(
        OdsReader::open(&header(4096, 0x8005)),
        Err(OdsError::NotRecognised(5, 0x8005))
    ));
    assert!(matches!(OdsReader::open(&header(4096, 0x800B)), Err(OdsError::NotSupported(11))));
    assert_eq!(OdsReader::open(&header(4096, 0x800E)).unwrap().ods_ver, 14);
}

#[test]
fn columns_with_one_position_keep_their_order() {
    let mut b = Builder::new();
    b.relation(
        5,
        vec![data_page(
            1,
            0,
            &[field_record("T", "C", 2, 0), field_record("T", "A", 1, 1)],
        )],
    );
    let file = b.finish(1);
    let db = OdsReader::open(&file).unwrap();
    let found = db.read_field_names(1, "T").unwrap();
    assert_eq!(found, vec![(1, "A".to_string()), (0, "C".to_string())]);
    let mut b = Builder::new();
    b.relation(
        5,
        vec![data_page(
            1,
            0,
            &[field_record("T", "C", 2, 0), field_record("T", "B", 2, 1)],
        )],
    );
    let file = b.finish(1);
    let db = OdsReader::open(&file).unwrap();
    let found = db.read_field_names(1, "T").unwrap();
    assert_eq!(found, vec![(0, "C".to_string()), (1, "B".to_string())]);
}

#[test]
fn data_pages_come_in_ascending_order() {
    let mut b = Builder::new();
    let one = b.page(data_page(1, 0, &[client(1, 1, "a")]));
    let two = b.page(data_page(1, 1, &[client(1, 2, "b")]));
    let three = b.page(data_page(1, 2, &[client(1, 3, "c")]));
    let pp = b.pointer_page(1, &[three, 0, one, two]);
    let file = b.finish(1);
    let db = OdsReader::open(&file).unwrap();
    assert_eq!(db.data_pages_for(pp), vec![one, two, three]);
    let ids: Vec<u8> = db.records_meta(pp).iter().map(|r| r[4]).collect();
    assert_eq!(ids, vec![1, 2, 3]);
}

#[test]
fn names_that_are_no_text_are_no_names() {
    let mut b = Builder::new();
    let mut broken = relation_record(130, "X", false);
    broken[13 + 42] = 0xff;
    b.relation(6, vec![data_page(1, 0, &[broken, relation_record(131, "Y", false)])]);
    let file = b.finish(1);
    let db = OdsReader::open(&file).unwrap();
    assert_eq!(db.list_tables(), vec!["Y".to_string()]);
}

// ── The target ───────────────────────────────────────────────────────────────

const CREATE: &str = "CREATE TABLE \"clientes\" (\n    \"codigo\"                                   INTEGER,\n    \"nome\"                                     VARCHAR(20),\n    PRIMARY KEY (\"codigo\")\n);";

#[test]
fn a_table_becomes_a_create_statement() {
    let file = two_clients();
    let db = OdsReader::open(&file).unwrap();
    assert_eq!(create_table_sql_from(&db, "Clientes", false).unwrap(), CREATE);
    let unlogged = create_table_sql_from(&db, "CLIENTES", true).unwrap();
    assert_eq!(unlogged, CREATE.replace("CREATE TABLE", "CREATE UNLOGGED TABLE"));
    assert!(matches!(create_table_sql_from(&db, "NADA", false), Err(OdsError::TableNotFound)));
}

fn args(table: &str) -> Args {
    Args {
        database: None,
        table: Some(table.to_string()),
        output: None,
        no_progress: false,
        list_tables: false,
        create_table: true,
        bench: false,
        pg_database: None,
        all_tables: false,
        tables: vec![],
        pg_host: String::new(),
        pg_port: 5432,
        pg_user: String::new(),
        pg_password: String::new(),
        drop: true,
        unlogged: false,
        watch: false,
        watch_interval: 5,
        state_file: None,
        debug: false,
        inspect: false,
    }
}

#[test]
fn a_created_table_can_be_created_beside() {
    let file = two_clients();
    let db = OdsReader::open(&file).unwrap();
    let sql = create_table_sql_from(&db, "CLIENTES", true).unwrap();
    let h = FullHeader { table: "CLIENTES".to_string(), create_sql: sql.clone() };
    let plan = plan_full(&h).unwrap();
    assert_eq!(plan.create_sql, sql.replacen("\"clientes\"", "\"clientes__load\"", 1));
}

#[test]
fn the_options_name_the_table_to_create() {
    let file = two_clients();
    assert_eq!(create_table_sql(&file, &args("CLIENTES")).unwrap(), CREATE);
    assert!(matches!(create_table_sql(&[0u8; 10], &args("X")), Err(OdsError::TooSmall)));
}

#[test]
fn types_become_postgres_types() {
    let of = |dtype: u8, scale: i8, length: u16| {
        fb_type_to_pg(&Desc { dtype, scale, length, sub_type: 0, flags: 0, offset: 0 })
    };
    assert_eq!(of(ods::DTYPE_TEXT, 0, 10), "VARCHAR(10)");
    assert_eq!(of(ods::DTYPE_CSTRING, 0, 65535), "VARCHAR(65535)");
    assert_eq!(of(ods::DTYPE_VARYING, 0, 82), "VARCHAR(80)");
    assert_eq!(of(ods::DTYPE_VARYING, 0, 1), "VARCHAR(0)");
    assert_eq!(of(ods::DTYPE_SHORT, 0, 2), "SMALLINT");
    assert_eq!(of(ods::DTYPE_LONG, 0, 4), "INTEGER");
    assert_eq!(of(ods::DTYPE_INT64, 0, 8), "BIGINT");
    assert_eq!(of(ods::DTYPE_QUAD, 0, 8), "BIGINT");
    assert_eq!(of(ods::DTYPE_SHORT, -1, 2), "DOUBLE PRECISION");
    assert_eq!(of(ods::DTYPE_LONG, -2, 4), "DOUBLE PRECISION");
    assert_eq!(of(ods::DTYPE_INT64, -4, 8), "DOUBLE PRECISION");
    assert_eq!(of(ods::DTYPE_REAL, 0, 4), "REAL");
    assert_eq!(of(ods::DTYPE_DOUBLE, 0, 8), "DOUBLE PRECISION");
    assert_eq!(of(ods::DTYPE_D_FLOAT, 0, 8), "DOUBLE PRECISION");
    assert_eq!(of(ods::DTYPE_SQL_DATE, 0, 4), "DATE");
    assert_eq!(of(ods::DTYPE_SQL_TIME, 0, 4), "TIME");
    assert_eq!(of(ods::DTYPE_SQL_TIME_TZ, 0, 8), "TIME");
    assert_eq!(of(ods::DTYPE_TIMESTAMP, 0, 8), "TIMESTAMP");
    assert_eq!(of(ods::DTYPE_TIMESTAMP_TZ, 0, 12), "TIMESTAMP");
    assert_eq!(of(ods::DTYPE_BOOLEAN, 0, 1), "BOOLEAN");
    assert_eq!(of(ods::DTYPE_DBKEY, 0, 8), "BYTEA");
    assert_eq!(of(ods::DTYPE_BLOB, 0, 8), "TEXT");
}

fn row(id: i32, name: &str) -> Vec<u8> {
    let mut r = vec![0, 2, 0, 0, 0, 4];
    r.extend_from_slice(&id.to_be_bytes());
    r.extend_from_slice(&(name.len() as i32).to_be_bytes());
    r.extend_from_slice(name.as_bytes());
    r
}

fn stream(rows: &[Vec<u8>]) -> Vec<u8> {
    let mut s = b"PGCOPY\n\xff\r\n\0".to_vec();
    s.extend_from_slice(&[0u8; 8]);
    s.extend_from_slice(&rows.concat());
    s.extend_from_slice(&[0xff, 0xff]);
    s
}

#[test]
fn live_rows_are_written_as_a_copy_stream() {
    let file = database(
        7,
        vec![
            data_page(3, 0, &[client(50, 1, "Ana"), deleted(client(51, 9, "Zoe"))]),
            data_page(3, 1, &[client(60, 2, "Bia")]),
        ],
    );
    let db = OdsReader::open(&file).unwrap();
    let (fields, n) = copy_slots(&db, CLIENTES, "CLIENTES").unwrap();
    assert_eq!(n, 2);
    let mut out = Vec::new();
    let rows = write_copy_stream(&db, CLIENTES, &fields, n, &mut out, &mut Vec::new());
    assert_eq!(rows, 2);
    assert_eq!(out, stream(&[row(1, "Ana"), row(2, "Bia")]));
}

#[test]
fn a_column_that_a_row_does_not_have_is_null() {
    let mut b = Builder::new();
    let mut old = client(50, 1, "Ana");
    old[12] = 1;
    let newer = {
        let mut r = client(51, 2, "Bia");
        r[12] = 2;
        r
    };
    b.relation(
        8,
        vec![data_page(
            1,
            0,
            &[
                format_record(CLIENTES, 1, 2),
                format_record(CLIENTES, 2, 3),
                format_blob(&client_descs()[..1]),
                format_blob(&client_descs()),
            ],
        )],
    );
    b.relation(CLIENTES, vec![data_page(1, 0, &[old, newer])]);
    let file = b.finish(1);
    let db = OdsReader::open(&file).unwrap();
    let (fields, n) = copy_slots(&db, CLIENTES, "CLIENTES").unwrap();
    assert_eq!(fields, vec![(0, "col_0".to_string()), (1, "col_1".to_string())]);
    let mut out = Vec::new();
    write_copy_stream(&db, CLIENTES, &fields, n, &mut out, &mut Vec::new());
    let mut without_name = vec![0, 2, 0, 0, 0, 4, 0, 0, 0, 1];
    without_name.extend_from_slice(&[0xff; 4]);
    assert_eq!(out, stream(&[without_name, row(2, "Bia")]));
}

#[test]
fn a_migration_drops_creates_and_copies() {
    let file = two_clients();
    let db = OdsReader::open(&file).unwrap();
    let m = migrate(&db, &args("Clientes"));
    assert_eq!(m.drop_sql.as_deref(), Some("DROP TABLE IF EXISTS \"clientes\""));
    let load = m.load.unwrap();
    assert_eq!(load.create_sql, CREATE);
    assert_eq!(load.copy_sql, "COPY \"clientes\" FROM STDIN WITH (FORMAT BINARY)");
    assert_eq!(load.relation_id, CLIENTES);
    assert_eq!(load.n_fields, 2);
    let kept = migrate_table(&db, "CLIENTES", false, true);
    assert!(kept.drop_sql.is_none());
    assert!(kept.load.unwrap().create_sql.starts_with("CREATE UNLOGGED TABLE"));
    assert!(matches!(plan_load(&db, "NADA", false), Err(OdsError::TableNotFound)));
}

#[test]
fn every_table_of_a_run_is_counted() {
    let file = two_clients();
    let db = OdsReader::open(&file).unwrap();
    let mut run = migrate_all(&db).unwrap();
    assert_eq!(run.next(), Some("AVISOS"));
    assert!(run.record(None), "a failure asks for a new connection");
    assert_eq!(run.next(), Some("CLIENTES"));
    let stats = MigrateStats::measured(2, 100, 50, 20, 7);
    assert_eq!(stats, MigrateStats { rows: 2, bytes: 100, fdb_ns: 30, pg_ns: 27 });
    assert!(!run.record(Some(stats)));
    assert_eq!(run.next(), None);
    let t = run.totals();
    assert_eq!((t.rows, t.bytes, t.fdb_ns, t.pg_ns, t.ok, t.failed), (2, 100, 30, 27, 1, 1));
    assert_eq!(MigrateStats::measured(0, 0, 5, 9, 1).fdb_ns, 0);
    assert_eq!(migrate_list(vec![]).next(), None);
}

// ── Inspecting ───────────────────────────────────────────────────────────────

#[test]
fn slots_are_shown_one_by_one() {
    let mut page = data_page(3, 0, &[client(50, 1, "Ana"), vec![1, 2, 3], deleted(client(51, 9, "Z"))]);
    put16(&mut page, 22, 5);
    put16(&mut page, 24 + 16, 4090);
    put16(&mut page, 26 + 16, 100);
    let file = database(7, vec![page]);
    let db = OdsReader::open(&file).unwrap();
    let found = inspect_relation(&db, "clientes").unwrap();
    assert_eq!(found.n_pages, 1);
    assert_eq!(found.pages[0].slots.len(), 5);
    assert_eq!(found.pages[0].slots[3], SlotReport::Empty);
    let pp = found.first_pp.unwrap();
    assert_eq!(
        show_relation("clientes", &found),
        format!("relation=clientes rid=128 first_pp={pp} data_pages=1")
    );
    let n = found.pages[0].page;
    assert_eq!(show_page(&found.pages[0]), format!("─── page {n} pag_gen=3 slots=5 ───"));
    let lines: Vec<String> =
        found.pages[0].slots.iter().enumerate().map(|(s, r)| show_slot(s, r)).collect();
    assert_eq!(
        lines[0],
        format!(
            "  slot {:4}: txn={:<10} flags=0x{:04x} {}{}{}{}{}{} fmt={:<3} b_page={:<8} b_line={:<4} raw_len={}",
            0, 50, 2048, "    ", "    ", "    ", "    ", "    ", "NPK ", 0, 0, 0, 43
        )
    );
    assert_eq!(lines[1], "  slot    1: short raw_len=3");
    assert!(lines[2].contains("flags=0x0801 DEL "));
    assert_eq!(lines[3], "  slot    3: empty");
    assert_eq!(lines[4], "  slot    4: OOB off=4090 len=100");
}

#[test]
fn a_table_without_pages_is_shown_as_such() {
    let file = two_clients();
    let db = OdsReader::open(&file).unwrap();
    let found = inspect_relation(&db, "AVISOS").unwrap();
    assert!(found.first_pp.is_none());
    assert_eq!(
        show_relation("AVISOS", &found),
        "No pointer page for AVISOS (relation_id=129)"
    );
    assert!(matches!(inspect_relation(&db, "NADA"), Err(OdsError::TableNotFound)));
    let wide = SlotReport::Record {
        txn: 12345678901,
        flags: 0xabcd,
        fmt: 255,
        b_page: 3340534,
        b_line: 3,
        len: 22,
    };
    assert_eq!(
        show_slot(12345, &wide),
        "  slot 12345: txn=12345678901 flags=0xabcd DEL     FRG INC     NPK  fmt=255 b_page=3340534  b_line=3    raw_len=22"
    );
}

// ── Following changes ────────────────────────────────────────────────────────

/// Takes down what it is given, and fails when it is told to.
struct Recorder {
    fail: bool,
    deltas: Vec<(String, Vec<u8>, Vec<u8>, u64, u64)>,
    refused: Vec<(String, Vec<u8>, Vec<u8>, u64, u64)>,
    reconnects: usize,
}

impl Recorder {
    fn new() -> Self {
        Recorder { fail: false, deltas: Vec::new(), refused: Vec::new(), reconnects: 0 }
    }
}

impl DeltaSink for Recorder {
    fn apply_delta(
        &mut self,
        meta: &MergeMeta,
        upsert_buf: &[u8],
        delete_buf: &[u8],
        n_upserts: u64,
        n_deletes: u64,
        _debug: bool,
    ) -> Result<ApplyTiming, SinkError> {
        let delta = (
            meta.pg_table.clone(),
            upsert_buf.to_vec(),
            delete_buf.to_vec(),
            n_upserts,
            n_deletes,
        );
        if self.fail {
            self.refused.push(delta);
            return Err(SinkError { message: "no".to_string() });
        }
        self.deltas.push(delta);
        Ok(ApplyTiming::default())
    }

    fn reconnect(&mut self) -> Result<(), SinkError> {
        self.reconnects += 1;
        Ok(())
    }
}

fn key(id: i32) -> Vec<u8> {
    let mut r = vec![0, 1, 0, 0, 0, 4];
    r.extend_from_slice(&id.to_be_bytes());
    r
}

#[test]
fn a_first_cycle_sends_every_row_and_a_second_one_nothing() {
    let file = two_clients();
    let db = OdsReader::open(&file).unwrap();
    let pks = vec!["CODIGO".to_string()];
    let mut gens = HashMap::new();
    let mut cache: Option<TableCache> = None;
    let mut sink = Recorder::new();
    let s = sync_table(&db, &mut sink, "CLIENTES", 0, &pks, &mut gens, &mut cache, None, false)
        .unwrap();
    assert_eq!((s.upserts, s.deletes, s.max_txn), (2, 0, 60));
    assert_eq!(sink.deltas.len(), 1);
    assert_eq!(sink.deltas[0].0, "clientes");
    assert_eq!(sink.deltas[0].1, stream(&[row(1, "Ana"), row(2, "Bia")]));
    assert_eq!(sink.deltas[0].2, stream(&[]));
    let s = sync_table(&db, &mut sink, "CLIENTES", 60, &pks, &mut gens, &mut cache, None, false)
        .unwrap();
    assert_eq!((s.upserts, s.deletes, s.max_txn, s.pages_skipped), (0, 0, 60, 1));
    assert_eq!(sink.deltas.len(), 1, "nothing to apply is not applied");
}

#[test]
fn a_vanished_row_is_deleted() {
    let pks = vec!["CODIGO".to_string()];
    let mut gens = HashMap::new();
    let mut cache: Option<TableCache> = None;
    let mut sink = Recorder::new();
    let file = two_clients();
    let db = OdsReader::open(&file).unwrap();
    sync_table(&db, &mut sink, "CLIENTES", 0, &pks, &mut gens, &mut cache, None, false).unwrap();
    let after = database(8, vec![data_page(4, 0, &[client(50, 1, "Ana")])]);
    let db = OdsReader::open(&after).unwrap();
    let s = sync_table(&db, &mut sink, "CLIENTES", 60, &pks, &mut gens, &mut cache, None, false)
        .unwrap();
    assert_eq!((s.upserts, s.deletes, s.express_deletes), (0, 1, 1));
    assert_eq!(sink.deltas[1].2, stream(&[key(2)]));
}

#[test]
fn a_key_has_the_length_that_is_announced_for_it() {
    let file = two_clients();
    let db = OdsReader::open(&file).unwrap();
    let c = new_cache(&db, "CLIENTES", &["CODIGO".to_string()], None).unwrap();
    assert_eq!(c.pk_byte_len, 8);
    let mut out = vec![9; 20];
    encode_pk_pgcopy(&client(50, 7, "Ana")[13..], &c, 0, &mut out, &mut Vec::new());
    assert_eq!(out, vec![0, 0, 0, 4, 0, 0, 0, 7]);
}

#[test]
fn a_refused_delta_is_tried_again() {
    let file = two_clients();
    let db = OdsReader::open(&file).unwrap();
    let pks = vec!["CODIGO".to_string()];
    let mut gens = HashMap::new();
    let mut cache: Option<TableCache> = None;
    let mut sink = Recorder::new();
    sink.fail = true;
    let r = sync_table(&db, &mut sink, "CLIENTES", 0, &pks, &mut gens, &mut cache, None, false);
    assert!(matches!(r, Err(SyncError::Sink(e)) if e.message == "no"), "the sink's own error");
    assert_eq!(sink.refused.len(), 1);
    assert!(gens.is_empty(), "a page that was not applied is not taken as seen");
    sink.fail = false;
    let s = sync_table(&db, &mut sink, "CLIENTES", 0, &pks, &mut gens, &mut cache, None, false)
        .unwrap();
    assert_eq!(s.upserts, 2);
    assert_eq!(sink.deltas, sink.refused, "the same rows and keys again");
    let s = sync_table(&db, &mut sink, "CLIENTES", 60, &pks, &mut gens, &mut cache, None, false)
        .unwrap();
    assert_eq!((s.upserts, s.deletes), (0, 0));
    assert_eq!(sink.deltas.len(), 1, "nothing to apply, no call");
}

#[test]
fn a_refused_delta_is_the_same_again_whatever_keys_were_known() {
    let file = two_clients();
    let pks = vec!["CODIGO".to_string()];
    let mut gens = HashMap::new();
    let mut cache: Option<TableCache> = None;
    let mut sink = Recorder::new();
    let db = OdsReader::open(&file).unwrap();
    sync_table(&db, &mut sink, "CLIENTES", 0, &pks, &mut gens, &mut cache, None, false).unwrap();
    // Lists that are cut off, as only a broken file of saved keys holds them.
    let known = &mut cache.as_mut().unwrap().prev_pks_per_page;
    for n in 100..140u32 {
        known.insert(n, vec![n as u8; n as usize % 7]);
    }
    let after = database(8, vec![data_page(4, 0, &[client(50, 1, "Ana")])]);
    let db = OdsReader::open(&after).unwrap();
    sink.deltas.clear();
    for fail in [true, true, false] {
        sink.fail = fail;
        let r = sync_table(&db, &mut sink, "CLIENTES", 60, &pks, &mut gens, &mut cache, None, false);
        assert_eq!(r.is_err(), fail);
    }
    assert_eq!(sink.refused.len(), 2);
    assert_eq!(sink.refused[0], sink.refused[1]);
    assert_eq!(sink.refused[0], sink.deltas[0]);
}

#[test]
fn an_unknown_table_is_no_cycle() {
    let file = two_clients();
    let db = OdsReader::open(&file).unwrap();
    let mut cache: Option<TableCache> = None;
    let mut sink = Recorder::new();
    let r = sync_table(&db, &mut sink, "NADA", 0, &[], &mut HashMap::new(), &mut cache, None, false);
    assert!(matches!(r, Err(SyncError::Ods(OdsError::TableNotFound))));
    assert!(cache.is_none());
}

#[test]
fn a_watch_goes_through_its_tables() {
    let file = two_clients();
    let db = OdsReader::open(&file).unwrap();
    let mut sink = Recorder::new();
    let mut watch = Watch::new(CdcState::loaded(None), Vec::new(), file.len() as u64);
    assert!(!watch.note_size(file.len() as u64));
    assert_eq!(header_gen(&db), 7);
    assert!(watch.note_header(7), "the first look is a change");
    assert_eq!(watch.cycle_num, 1);
    let tables = vec!["CLIENTES".to_string(), "AVISOS".to_string()];
    let (cycle, outcomes) = watch.run_cycle(&db, &mut sink, &tables, false);
    assert_eq!((cycle.upserts, cycle.deletes, cycle.new_max), (2, 0, 60));
    assert!(matches!(outcomes[0], TableOutcome::Synced { from_txn: 0, table_txn: 0, .. }));
    assert!(matches!(outcomes[1], TableOutcome::NoKey(OdsError::NoPrimaryKey)));
    assert!(watch.end_cycle(&cycle));
    assert_eq!(watch.state.last_txn, 60);
    assert_eq!(watch.state.tables[0].1.last_txn, 60);
    assert_eq!(watch.state.tables[0].1.pk_fields, vec!["CODIGO".to_string()]);
    assert!(!watch.note_header(7));
    assert!(watch.note_header(8));
    let (cycle, _) = watch.run_cycle(&db, &mut sink, &tables, false);
    assert!(!watch.end_cycle(&cycle), "nothing changed, nothing is saved");
    assert_eq!(watch.state.last_txn, 60);
    assert!(watch.note_size(1), "another size maps the file again");
    assert!(watch.caches.is_empty());
}

#[test]
fn a_failed_table_sets_up_the_connection_again() {
    let file = two_clients();
    let db = OdsReader::open(&file).unwrap();
    let mut sink = Recorder::new();
    sink.fail = true;
    let mut watch = Watch::new(CdcState::loaded(None), Vec::new(), 0);
    let (cycle, outcomes) =
        watch.run_cycle(&db, &mut sink, &vec!["CLIENTES".to_string()], false);
    assert!(matches!(outcomes[0], TableOutcome::Failed(SyncError::Sink(_), None)));
    assert_eq!(sink.reconnects, 1);
    assert!(!watch.end_cycle(&cycle));
    assert_eq!(watch.state.last_txn, 0);
}

#[test]
fn keys_that_were_saved_find_what_vanished_meanwhile() {
    let file = two_clients();
    let db = OdsReader::open(&file).unwrap();
    let mut sink = Recorder::new();
    let mut watch = Watch::new(CdcState::loaded(None), Vec::new(), 0);
    let tables = vec!["CLIENTES".to_string()];
    let (cycle, _) = watch.run_cycle(&db, &mut sink, &tables, false);
    watch.end_cycle(&cycle);
    let saved = CdcState::save_snapshots(&watch.caches);

    let after = database(8, vec![data_page(4, 0, &[client(50, 1, "Ana")])]);
    let db = OdsReader::open(&after).unwrap();
    let mut again = Watch::new(watch.state, CdcState::load_snapshots(&saved), 0);
    let (cycle, _) = again.run_cycle(&db, &mut sink, &tables, false);
    assert_eq!((cycle.upserts, cycle.deletes), (0, 1));
    assert!(again.pending.is_empty(), "the keys were handed over");
}

#[test]
fn saved_keys_are_read_back() {
    let file = two_clients();
    let db = OdsReader::open(&file).unwrap();
    let mut sink = Recorder::new();
    let mut watch = Watch::new(CdcState::loaded(None), Vec::new(), 0);
    watch.run_cycle(&db, &mut sink, &vec!["CLIENTES".to_string()], false);
    let bytes = save_snapshots(&watch.caches);
    assert_eq!(&bytes[..8], b"FDBS\x01\0\0\0");
    let back = load_snapshots(&bytes);
    assert_eq!(back.len(), 1);
    assert_eq!(back[0].0, "CLIENTES");
    assert_eq!((back[0].1).0, 8);
    let keys: Vec<&Vec<u8>> = (back[0].1).1.values().collect();
    assert_eq!(keys, vec![&vec![0, 0, 0, 4, 0, 0, 0, 1, 0, 0, 0, 4, 0, 0, 0, 2]]);
    assert!(load_snapshots(&bytes[..bytes.len() - 1]).is_empty(), "a file that is cut off");
    assert!(load_snapshots(b"FDBX").is_empty());
    assert_eq!(save_snapshots(&Vec::new()), b"FDBS\x01\0\0\0\0\0\0\0\0\0\0\0".to_vec());
}

#[test]
fn pauses_are_short() {
    assert_eq!(pause_ticks(5000), 50);
    assert_eq!(pause_ticks(1000), 10);
    assert_eq!(pause_ticks(50), 1);
    assert_eq!(pause_ticks(0), 1);
}

#[test]
fn a_watch_takes_its_turns() {
    let mut t = Turn::Check;
    for (said, next) in [
        (Said::No, Turn::Look),
        (Said::Yes, Turn::Save),
        (Said::Yes, Turn::Wait),
        (Said::No, Turn::Check),
        (Said::No, Turn::Look),
        (Said::No, Turn::Wait),
        (Said::Yes, Turn::Check),
        (Said::Yes, Turn::SaveLast),
        (Said::Yes, Turn::End(true)),
        (Said::Failed, Turn::End(true)),
    ] {
        t = t.next(said);
        assert_eq!(t, next);
    }
    assert_eq!(Turn::SaveLast.next(Said::Failed), Turn::End(false));
    assert_eq!(Turn::Save.next(Said::Failed), Turn::End(false));
    assert_eq!(Turn::Look.next(Said::Failed), Turn::End(false));
}

#[test]
fn progress_is_due_every_ten_thousand_rows() {
    assert!(progress_due(10_000) && progress_due(20_000) && !progress_due(10_001));
    let page = data_page(3, 0, &(0..70).map(|i| client(50, i, "A")).collect::<Vec<_>>());
    let file = database(7, (0..300).map(|_| page.clone()).collect());
    let db = OdsReader::open(&file).unwrap();
    let mut out = Vec::new();
    let mut marks = vec![7];
    let n = write_copy_stream(&db, CLIENTES, &fields(), 2, &mut out, &mut marks);
    assert_eq!((n, marks), (21_000, vec![7, 10_000, 20_000]));

    let order = fields();
    let rows = CopyRows::try_new(&db, CLIENTES, &order, 2).unwrap();
    let mut stream = CopyStream::new(rows);
    let mut pieces = Vec::new();
    let mut seen = Vec::new();
    loop {
        match stream.step(&mut pieces).unwrap() {
            StreamStep::Part => {}
            StreamStep::Progress(n) => seen.push(n),
            StreamStep::End(n) => {
                seen.push(n);
                break;
            }
        }
    }
    assert_eq!(seen, vec![10_000, 20_000, 21_000]);
    assert_eq!(pieces, out);
}

// ── Damaged files ────────────────────────────────────────────────────────────

/// The first entry of the pointer page `pp` made to name a page that is not there.
fn with_lost_page(mut file: Vec<u8>, pp: usize) -> Vec<u8> {
    assert_eq!(file[PAGE * pp], PAG_POINTER);
    put32(&mut file, PAGE * pp + 32, 99);
    file
}

fn fields() -> Vec<(usize, String)> {
    vec![(0, "CODIGO".to_string()), (1, "NOME".to_string())]
}

fn cycle_over(file: &[u8], tables: &[&str]) -> usize {
    let db = OdsReader::open(file).unwrap();
    let tables: Vec<String> = tables.iter().map(|t| t.to_string()).collect();
    let mut watch = Watch::new(CdcState::loaded(None), Vec::new(), file.len() as u64);
    watch.run_cycle(&db, &mut Recorder::new(), &tables, false).1.len()
}

#[test]
fn a_whole_file_is_read_as_it_is() {
    let file = two_clients();
    let db = OdsReader::open(&file).unwrap();
    assert_eq!(try_list_tables(&db), Some(db.list_tables()));
    assert_eq!(try_list_constraints(&db, "CLIENTES"), Some(db.list_constraints("CLIENTES")));
    assert_eq!(
        try_primary_key(&db, "CLIENTES").unwrap().unwrap(),
        vec!["CODIGO".to_string()]
    );
    assert!(matches!(try_primary_key(&db, "AVISOS"), Some(Err(OdsError::NoPrimaryKey))));
    assert_eq!(
        try_create_table(&db, "CLIENTES", true).unwrap().unwrap(),
        create_table_sql_from(&db, "CLIENTES", true).unwrap()
    );
    assert_eq!(
        try_create_table_sql(&file, &args("clientes")).unwrap().unwrap(),
        create_table_sql(&file, &args("clientes")).unwrap()
    );
    assert!(matches!(try_create_table_sql(b"", &args("clientes")), Some(Err(_))));
    assert_eq!(try_copy_slots(&db, "CLIENTES").unwrap().unwrap(), (CLIENTES, fields(), 2));
    assert!(matches!(try_copy_slots(&db, "NADA"), Some(Err(OdsError::TableNotFound))));
    assert_eq!(try_plan_load(&db, "CLIENTES", false).unwrap().unwrap().n_fields, 2);
    assert!(try_migrate_table(&db, "CLIENTES", true, false).unwrap().drop_sql.is_some());
    assert!(try_migrate(&db, &args("CLIENTES")).unwrap().load.is_ok());
    assert_eq!(try_migrate_all(&db).unwrap().unwrap().next(), Some("AVISOS"));
    assert_eq!(try_inspect_relation(&db, "CLIENTES").unwrap().unwrap().pages.len(), 1);
    let format = try_blob(&db, BlobId { relation: 8, number: 1 }).unwrap().unwrap();
    assert_eq!(format.len(), 2 + 12 * 2);
    assert!(cache_fits(&db, "CLIENTES"));
    assert_eq!(cycle_over(&file, &["CLIENTES", "AVISOS"]), 2);

    let mut out = vec![9u8];
    assert_eq!(try_copy_stream(&db, CLIENTES, &fields(), 2, &mut out, &mut Vec::new()), Some(2));
    assert_eq!(out[1..], stream(&[row(1, "Ana"), row(2, "Bia")]));
}

#[test]
fn a_file_that_is_cut_off_is_not_read() {
    let mut file = two_clients();
    file.truncate(file.len() - PAGE);
    let db = OdsReader::open(&file).unwrap();
    assert!(try_list_tables(&db).is_none());
    assert!(try_list_constraints(&db, "CLIENTES").is_none());
    assert!(try_primary_key(&db, "CLIENTES").is_none());
    assert!(try_create_table(&db, "CLIENTES", false).is_none());
    assert!(try_create_table_sql(&file, &args("CLIENTES")).is_none());
    assert!(try_copy_slots(&db, "CLIENTES").is_none());
    assert!(try_plan_load(&db, "CLIENTES", false).is_none());
    assert!(try_migrate_table(&db, "CLIENTES", true, false).is_none());
    assert!(try_migrate(&db, &args("CLIENTES")).is_none());
    assert!(try_migrate_all(&db).is_none());
    assert!(try_inspect_relation(&db, "CLIENTES").is_none());
    assert!(try_blob(&db, BlobId { relation: 8, number: 1 }).is_none());
    assert!(CopyRows::try_new(&db, CLIENTES, &fields(), 2).is_none());
    assert!(!cache_fits(&db, "CLIENTES"));
    assert_eq!(cycle_over(&file, &["CLIENTES"]), 0);
}

#[test]
fn what_a_lost_page_does_not_touch_is_read() {
    // RDB$RELATION_CONSTRAINTS is lost.
    let file = with_lost_page(two_clients(), 6);
    let db = OdsReader::open(&file).unwrap();
    assert!(try_list_tables(&db).is_some());
    assert!(try_copy_slots(&db, "CLIENTES").is_some());
    assert!(try_list_constraints(&db, "CLIENTES").is_none());
    assert!(try_primary_key(&db, "CLIENTES").is_none());
    assert!(try_plan_load(&db, "CLIENTES", false).is_none());
    assert!(matches!(
        try_plan_load(&db, "AVISOS", false),
        Some(Err(OdsError::NoFormats(129)))
    ));
    assert_eq!(cycle_over(&file, &["CLIENTES"]), 0);
    let none: Option<TableCache> = None;
    let pks = vec!["CODIGO".to_string()];
    assert!(is_syncable(&db, "CLIENTES", &pks, &none, None, 0, &HashMap::new()));

    // The rows of CLIENTES are lost.
    let file = with_lost_page(two_clients(), 12);
    let db = OdsReader::open(&file).unwrap();
    assert!(try_plan_load(&db, "CLIENTES", false).is_some());
    assert!(try_inspect_relation(&db, "CLIENTES").is_none());
    let mut out = vec![9u8];
    assert_eq!(try_copy_stream(&db, CLIENTES, &fields(), 2, &mut out, &mut Vec::new()), None);
    assert_eq!(out, vec![9]);
    assert!(!is_syncable(&db, "CLIENTES", &pks, &none, None, 0, &HashMap::new()));
    assert_eq!(cycle_over(&file, &["AVISOS", "CLIENTES", "AVISOS"]), 1);
}

#[test]
fn a_pointer_page_that_leads_back_to_itself_is_not_followed() {
    let mut file = two_clients();
    file[PAGE * 12 + 1] = 0;
    put32(&mut file, PAGE * 12 + 20, 12);
    let db = OdsReader::open(&file).unwrap();
    assert!(db.try_data_pages(12).is_none());
    assert!(try_inspect_relation(&db, "CLIENTES").is_none());
    assert!(try_plan_load(&db, "CLIENTES", false).is_some());
}

#[test]
fn rows_come_up_to_one_that_cannot_be_encoded() {
    let mut odd = client(60, 2, "Bia");
    put16(&mut odd, 10, RHD_INCOMPLETE | RHD_NOT_PACKED);
    odd.extend_from_slice(&[0; 8]);
    put32(&mut odd, 16, 99);
    let file = database(7, vec![data_page(3, 0, &[client(50, 1, "Ana"), odd])]);
    let db = OdsReader::open(&file).unwrap();
    let order = fields();
    let mut rows = CopyRows::try_new(&db, CLIENTES, &order, 2).unwrap();
    let mut out = Vec::new();
    assert_eq!(rows.try_next_row(&mut out), Some(true));
    assert_eq!(out, row(1, "Ana"));
    assert_eq!(rows.try_next_row(&mut out), None);
    assert_eq!(out, row(1, "Ana"));
    assert!(!db.rows_fit(CLIENTES, &order, 2));
}

#[test]
fn damage_is_found_out_wherever_it_is() {
    let good = two_clients();
    for at in (0..good.len()).filter(|i| good[*i] != 0 || i % 97 == 0) {
        for v in [0u8, 1, 0x7f, 0xff] {
            let mut file = good.clone();
            file[at] = v;
            let Ok(db) = OdsReader::open(&file) else { continue };
            let loads = try_plan_load(&db, "CLIENTES", false);
            assert_eq!(loads.is_some(), try_create_table(&db, "CLIENTES", false).is_some());
            assert_eq!(try_list_tables(&db).is_some(), try_migrate_all(&db).is_some());
            try_inspect_relation(&db, "CLIENTES");
            if let Some(Ok(x)) = loads {
                let mut out = Vec::new();
                let mut marks = Vec::new();
                let n = try_copy_stream(
                    &db,
                    x.relation_id,
                    &x.field_order,
                    x.n_fields,
                    &mut out,
                    &mut marks,
                );
                assert_eq!(n.is_none(), out.is_empty());
            }
        }
    }
}

#[test]
fn a_cycle_stops_at_damage_wherever_it_is() {
    let good = two_clients();
    for at in (0..good.len()).filter(|i| good[*i] != 0 && good[*i] != b' ') {
        let mut file = good.clone();
        file[at] ^= 0x85;
        if OdsReader::open(&file).is_ok() {
            assert!(cycle_over(&file, &["CLIENTES", "AVISOS"]) <= 2);
        }
    }
}
