//! Framing, and what the agent and the gateway make of it.
use fdb_extract::gateway::{
    answer, check_body, choose_password, delta_reply, full_reply, parse_tenants, plan_delta,
    plan_full, retarget_create, route, Route,
};
use fdb_extract::merge::{
    apply_delta, apply_delta_streaming, MergeMeta, MergeState, MergeStep,
};
use fdb_extract::push::{
    delta_header, delta_outcome, delta_request, full_outcome, AfterPush, PushStats, PushTotals,
};
use fdb_extract::wire::{
    body_len, copied_whole, read_request_header, read_response, read_u32_prefixed,
    write_request_header, write_response, write_u32_prefixed, ByteReader, ChunkReader, ChunkWriter,
    DeltaHeader, FullHeader, Op, Resp, Want, WireError, MAGIC, VERSION,
};

#[test]
fn ops_have_their_bytes() {
    assert_eq!(Op::Full.to_u8(), 1);
    assert_eq!(Op::Delta.to_u8(), 2);
    assert_eq!(Op::from_u8(1), Ok(Op::Full));
    assert_eq!(Op::from_u8(2), Ok(Op::Delta));
    assert_eq!(Op::from_u8(0), Err(WireError::UnknownOp));
    assert_eq!(Op::from_u8(3), Err(WireError::UnknownOp));
}

#[test]
fn bytes_behind_their_length_read_back() {
    let mut w = vec![9];
    write_u32_prefixed(&mut w, b"abc");
    write_u32_prefixed(&mut w, b"");
    assert_eq!(w, [9, 0, 0, 0, 3, b'a', b'b', b'c', 0, 0, 0, 0]);
    let mut r = ByteReader::new(&w[1..]);
    assert_eq!(read_u32_prefixed(&mut r), Ok(b"abc".to_vec()));
    assert_eq!(read_u32_prefixed(&mut r), Ok(vec![]));
    assert_eq!(read_u32_prefixed(&mut r), Err(WireError::UnexpectedEof { missing: 4 }));
    let mut short = ByteReader::new(&w[1..6]);
    assert_eq!(read_u32_prefixed(&mut short), Err(WireError::UnexpectedEof { missing: 2 }));
    assert_eq!(body_len([0, 1, 0, 2]), 65538);
    assert_eq!(copied_whole(5, 5), Ok(5));
    assert_eq!(copied_whole(5, 4), Err(WireError::ShortBody));
}

#[test]
fn a_request_reads_back() {
    let mut w = Vec::new();
    write_request_header(&mut w, Op::Delta, b"{}");
    assert_eq!(w, [b"FDBI".as_slice(), &[1, 2, 0, 0, 0, 2], b"{}"].concat());
    assert_eq!(MAGIC, *b"FDBI");
    assert_eq!(VERSION, 1);
    w.push(77);
    let mut r = ByteReader::new(&w);
    assert_eq!(read_request_header(&mut r), Ok((Op::Delta, b"{}".to_vec())));
    assert_eq!(r.read(10), vec![77]);
}

#[test]
fn a_broken_request_is_told_from_a_short_one() {
    let mut w = Vec::new();
    write_request_header(&mut w, Op::Full, b"{}");
    let read = |b: &[u8]| read_request_header(&mut ByteReader::new(b));
    for n in 0..w.len() {
        let asked = match read(&w[..n]) {
            Err(WireError::UnexpectedEof { missing }) => missing as usize,
            other => panic!("{other:?}"),
        };
        assert!(asked > 0 && n + asked <= w.len());
    }
    let mut bad = w.clone();
    bad[0] = b'X';
    assert_eq!(read(&bad), Err(WireError::BadMagic));
    assert_eq!(read(&bad[..4]), Err(WireError::BadMagic));
    let mut bad = w.clone();
    bad[4] = 2;
    assert_eq!(read(&bad), Err(WireError::UnsupportedVersion));
    let mut bad = w.clone();
    bad[5] = 9;
    assert_eq!(read(&bad), Err(WireError::UnknownOp));
}

#[test]
fn a_reply_reads_back() {
    let mut w = Vec::new();
    write_response(&mut w, &Resp::default(), b"ok");
    assert_eq!(w, [b"FDBI".as_slice(), &[0, 0, 0, 0, 2], b"ok"].concat());
    assert_eq!(read_response(&mut ByteReader::new(&w)), Ok(b"ok".to_vec()));
    let mut w = Vec::new();
    write_response(&mut w, &Resp::err("x".to_string()), b"no");
    assert_eq!(w[4], 1);
    assert_eq!(read_response(&mut ByteReader::new(&w)), Ok(b"no".to_vec()));
    w[1] = 0;
    assert_eq!(read_response(&mut ByteReader::new(&w)), Err(WireError::BadMagic));
    let missing = WireError::UnexpectedEof { missing: 4 };
    assert_eq!(read_response(&mut ByteReader::new(&[])), Err(missing));
    let e = Resp::err("x".to_string());
    assert_eq!((e.error.as_deref(), e.rows, e.upserts, e.deletes), (Some("x"), 0, 0, 0));
}

#[test]
fn frames_read_back() {
    let mut w = ChunkWriter::new(Vec::new());
    assert_eq!(w.write(b"hello "), 6);
    assert_eq!(w.write(b""), 0);
    assert_eq!(w.bytes_written(), 10);
    let first = w.take();
    assert_eq!(w.write(b"world"), 5);
    assert_eq!(w.bytes_written(), 19);
    let mut all = first;
    all.extend(w.finish());
    assert_eq!(all.len(), 23);
    assert_eq!(&all[..4], &[0, 0, 0, 6]);
    all.extend_from_slice(b"next");
    let mut r = ChunkReader::new(ByteReader::new(&all));
    let mut got = Vec::new();
    while !r.is_done() {
        got.extend(r.read(4).unwrap());
    }
    assert_eq!(got, b"hello world");
    assert_eq!(r.read(4), Ok(vec![]));
    assert_eq!(r.into_inner().read(9), b"next");
}

#[test]
fn frames_that_are_cut_off_are_an_error() {
    let mut r = ChunkReader::new(ByteReader::new(&[0, 0]));
    assert_eq!(r.read(4), Err(WireError::ShortBody));
    let mut r = ChunkReader::new(ByteReader::new(&[0, 0, 0, 3, 7]));
    assert_eq!(r.read(4), Ok(vec![7]));
    assert_eq!(r.read(4), Err(WireError::ShortBody));
    assert!(!r.is_done());
    let mut r = ChunkReader::new(ByteReader::new(&[0, 0, 0, 3, 7, 8, 9]));
    assert_eq!(r.read(0), Err(WireError::ShortBody));
}

#[test]
fn a_body_that_is_cut_off_never_ends() {
    let pieces: [&[u8]; 4] = [b"abc", b"", b"defgh", b"i"];
    let mut w = ChunkWriter::new(Vec::new());
    for p in pieces {
        w.write(p);
    }
    assert_eq!(w.bytes_written(), 4 + 3 + 4 + 5 + 4 + 1);
    let whole = w.finish();
    assert_eq!(whole.len(), 25);
    for n in 0..whole.len() {
        let mut r = ChunkReader::new(ByteReader::new(&whole[..n]));
        let end = loop {
            match r.read(2) {
                Ok(b) => assert!(!b.is_empty(), "the body ended at {n}"),
                Err(e) => break e,
            }
        };
        assert_eq!(end, WireError::ShortBody);
        assert!(!r.is_done());
    }
}

#[test]
fn a_reader_says_what_it_wants() {
    let mut r = ChunkReader::new(());
    assert_eq!(r.want(10), Want::Length);
    r.got_length(6);
    assert_eq!(r.want(10), Want::Bytes(6));
    assert_eq!(r.want(4), Want::Bytes(4));
    assert_eq!(r.got_bytes(6), Ok(6));
    assert_eq!(r.want(10), Want::Length);
    r.got_length(2);
    assert_eq!(r.got_bytes(0), Err(WireError::ShortBody));
    assert_eq!(r.got_bytes(2), Ok(2));
    r.got_length(0);
    assert_eq!(r.want(10), Want::Nothing);
    assert!(r.is_done());
}

// ── The agent ────────────────────────────────────────────────────────────────

fn meta() -> MergeMeta {
    MergeMeta {
        pg_table: "vendas".to_string(),
        cols_csv: "\"id\", \"total\"".to_string(),
        pk_csv: "\"id\"".to_string(),
        pk_col_names: vec!["\"id\"".to_string()],
    }
}

#[test]
fn a_delta_request_carries_both_bodies() {
    let h = delta_header(&meta(), 3, 1);
    assert_eq!(h.table, "vendas");
    assert_eq!(h.cols_csv, "\"id\", \"total\"");
    assert_eq!(h.pk_csv, "\"id\"");
    assert_eq!(h.pk_col_names, vec!["\"id\"".to_string()]);
    assert_eq!((h.n_upserts, h.n_deletes), (3, 1));
    let req = delta_request(b"{}", b"up", b"del");
    let mut r = ByteReader::new(&req);
    assert_eq!(read_request_header(&mut r), Ok((Op::Delta, b"{}".to_vec())));
    assert_eq!(read_u32_prefixed(&mut r), Ok(b"up".to_vec()));
    assert_eq!(read_u32_prefixed(&mut r), Ok(b"del".to_vec()));
    assert_eq!(r.pos, req.len());
}

#[test]
fn replies_mean_what_they_say() {
    let bad = Resp::err("full disk".to_string());
    let e = delta_outcome(&bad).err().unwrap();
    assert_eq!(e.message, "gateway rejected delta: full disk");
    assert_eq!(delta_outcome(&Resp::default()).ok().unwrap().commit_ns, 0);
    let e = full_outcome(&bad, 5, 9).err().unwrap();
    assert_eq!(e, "gateway rejected: full disk");
    let good = Resp { rows: 4, ..Resp::default() };
    let s = full_outcome(&good, 5, 9).unwrap();
    assert_eq!(s, PushStats { rows_read: 5, rows_sent: 4, bytes: 9 });
}

#[test]
fn one_failed_push_fails_the_run() {
    let mut t = PushTotals::new();
    assert_eq!(t.after(false), AfterPush::Stop);
    t.record(Some(PushStats { rows_read: 5, rows_sent: 4, bytes: 9 }));
    t.record(Some(PushStats { rows_read: 1, rows_sent: 1, bytes: u64::MAX }));
    assert_eq!(t.after(true), AfterPush::Watch);
    assert_eq!((t.ok, t.rows_read, t.rows_sent, t.bytes_sent), (2, 6, 5, u64::MAX));
    t.record(None);
    assert_eq!(t.failed, 1);
    assert_eq!(t.after(true), AfterPush::Fail);
}

// ── The gateway ──────────────────────────────────────────────────────────────

fn specs(v: &[&str]) -> Vec<String> {
    v.iter().map(|s| s.to_string()).collect()
}

#[test]
fn tenants_have_databases() {
    let t = parse_tenants(&specs(&["acme=a", "beta=b=c", "acme=z"])).unwrap();
    let db = |cn: &str| match route(&t, cn) {
        Route::Database(d) => d,
        Route::Refused(r) => r.error.unwrap(),
    };
    assert_eq!(db("acme"), "z");
    assert_eq!(db("beta"), "b=c");
    assert_eq!(db("gama"), "unknown tenant 'gama'");
    assert_eq!(db("Acme"), "unknown tenant 'Acme'");
    let e = parse_tenants(&specs(&["acme=a", "oops", "x"])).err().unwrap();
    assert_eq!(e, "bad --tenant 'oops', expected tenant=database");
    assert!(parse_tenants(&[].to_vec()).unwrap().is_empty());
}

#[test]
fn passwords_come_from_the_option_first() {
    assert_eq!(choose_password("a", Some("b".to_string())), "a");
    assert_eq!(choose_password("", Some("b".to_string())), "b");
    assert_eq!(choose_password("", None), "");
}

#[test]
fn a_table_is_loaded_beside_the_one_that_is_there() {
    let sql = "CREATE UNLOGGED TABLE \"vendas\" (\n    \"TABLE \"vendas\"\" TEXT\n);";
    let h = FullHeader { table: "VENDAS".to_string(), create_sql: sql.to_string() };
    let p = plan_full(&h).unwrap();
    assert_eq!(p.pg_table, "vendas");
    assert_eq!(p.staging, "vendas__load");
    assert_eq!(p.drop_sql, "DROP TABLE IF EXISTS \"vendas__load\"");
    assert_eq!(
        p.create_sql,
        "CREATE UNLOGGED TABLE \"vendas__load\" (\n    \"TABLE \"vendas\"\" TEXT\n);"
    );
    assert_eq!(p.copy_sql, "COPY \"vendas__load\" FROM STDIN WITH (FORMAT BINARY)");
    assert_eq!(
        p.swap_sql,
        "BEGIN; DROP TABLE IF EXISTS \"vendas\"; ALTER TABLE \"vendas__load\" RENAME TO \"vendas\"; COMMIT;"
    );
    let h = FullHeader { table: "OUTRA".to_string(), create_sql: sql.to_string() };
    assert_eq!(plan_full(&h).err().unwrap(), "could not derive staging DDL for outra");
    assert_eq!(retarget_create("x", "a", "b"), None);
    assert_eq!(
        retarget_create("CREATE TABLE \"a\" ()", "a", "b").as_deref(),
        Some("CREATE TABLE \"b\" ()")
    );
}

#[test]
fn a_body_without_its_end_is_not_swapped_in() {
    assert_eq!(check_body(true), Ok(()));
    assert_eq!(check_body(false).err().unwrap(), "body ended before terminator");
}

#[test]
fn a_request_is_answered() {
    let r = answer(Ok(full_reply(12)));
    assert_eq!((r.error, r.rows, r.upserts, r.deletes), (None, 12, 0, 0));
    let r = answer(Ok(delta_reply(3, 4)));
    assert_eq!((r.error, r.rows, r.upserts, r.deletes), (None, 0, 3, 4));
    let r = answer(Err("no".to_string()));
    assert_eq!((r.error.as_deref(), r.rows), (Some("no"), 0));
}

fn texts(steps: &[MergeStep]) -> Vec<String> {
    steps
        .iter()
        .map(|s| match s {
            MergeStep::Execute { sql, .. } => sql.clone(),
            MergeStep::CopyUpserts(sql) => format!("up: {sql}"),
            MergeStep::CopyDeletes(sql) => format!("del: {sql}"),
            MergeStep::DrainDeletes => "drain".to_string(),
        })
        .collect()
}

#[test]
fn a_delta_is_merged_through_temporary_tables() {
    let h = DeltaHeader {
        table: "VENDAS".to_string(),
        cols_csv: meta().cols_csv,
        pk_csv: meta().pk_csv,
        pk_col_names: meta().pk_col_names,
        n_upserts: 2,
        n_deletes: 0,
    };
    let (m, run) = plan_delta(h);
    assert_eq!(m.pg_table, "vendas");
    assert_eq!(
        texts(&run.steps),
        vec![
            "DROP TABLE IF EXISTS \"_fdb_delta_vendas\"",
            "DROP TABLE IF EXISTS \"_fdb_del_vendas\"",
            "CREATE TEMP TABLE \"_fdb_delta_vendas\" (LIKE \"vendas\")",
            "CREATE TEMP TABLE \"_fdb_del_vendas\" AS SELECT \"id\" FROM \"vendas\" WHERE false",
            "up: COPY \"_fdb_delta_vendas\" (\"id\", \"total\") FROM STDIN WITH (FORMAT BINARY)",
            "drain",
            "INSERT INTO \"vendas\" (\"id\", \"total\") SELECT \"id\", \"total\" FROM \"_fdb_delta_vendas\" ON CONFLICT (\"id\") DO UPDATE SET \"total\" = EXCLUDED.\"total\"",
            "DROP TABLE IF EXISTS \"_fdb_delta_vendas\"",
            "DROP TABLE IF EXISTS \"_fdb_del_vendas\"",
        ]
    );
    let both = apply_delta(&meta(), 0, 2);
    assert_eq!(
        texts(&both.steps)[5..7],
        [
            "del: COPY \"_fdb_del_vendas\" (\"id\") FROM STDIN WITH (FORMAT BINARY)".to_string(),
            "DELETE FROM \"vendas\" USING \"_fdb_del_vendas\" WHERE \"vendas\".\"id\" = \"_fdb_del_vendas\".\"id\"".to_string(),
        ]
    );
}

#[test]
fn both_ways_to_merge_tell_the_server_the_same() {
    for (n_upserts, n_deletes) in [(0, 1), (1, 0), (2, 3)] {
        let at_hand = texts(&apply_delta(&meta(), n_upserts, n_deletes).steps);
        let mut streamed = texts(&apply_delta_streaming(&meta(), n_upserts, n_deletes).steps);
        streamed.retain(|s| s != "drain");
        assert_eq!(at_hand, streamed);
    }
}

#[test]
fn a_merge_commits_only_if_all_went_well() {
    let mut run = apply_delta(&meta(), 1, 1);
    assert_eq!(run.state, MergeState::Begin);
    let mut n = 0;
    while run.state != MergeState::Commit {
        run.advance(true);
        n += 1;
    }
    assert_eq!(n, run.steps.len() + 1);
    run.advance(true);
    assert_eq!(run.state, MergeState::Done(true));

    let mut run = apply_delta(&meta(), 1, 1);
    run.advance(true);
    run.advance(false);
    assert_eq!(run.state, MergeState::Step(1), "a table that is not there need not be dropped");
    run.advance(true);
    run.advance(false);
    assert_eq!(run.state, MergeState::Rollback);
    run.advance(true);
    assert_eq!(run.state, MergeState::Done(false));

    let mut run = apply_delta(&meta(), 1, 1);
    run.advance(false);
    assert_eq!(run.state, MergeState::Done(false));
}
