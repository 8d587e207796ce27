//! One table, one cycle: scan it, hand the changes to a sink, take note of what was
//! applied.
use crate::bytes::{get_u32, sum64};
use crate::catalog::{column_views, count16};
use crate::cdc::{
    build_slots, data_page_count, found, key_stride, page_gen, pk_pgcopy_stride, scan_visits,
    slot_info, unchanged_count, SlotInfo, TableCache,
};
use crate::clock::{elapsed_ns, start_timer};
use crate::extract::{
    columns_bytes, concat, copy_header, copy_slot, copy_slots_of, copy_trailer, default_columns,
    numbered_columns, row_bytes, slot_value,
};
use crate::maps::{put_all, retain_live, set_of};
use crate::merge::{ApplyTiming, MergeMeta};
use crate::ods::{Desc, Image, OdsError, OdsReader};
use crate::scan::{scan_changes_into, scan_shows, ScanOutput};
use crate::scan_laws::{
    law_repeated_scan_reports_the_same, law_scanned_keys_are_whole, law_watermark, whole_keys,
};
use crate::sink::{recorded, DeltaSink, Offer, SinkError};
use crate::text::{
    eq_ascii_fold, eq_ignore_ascii_case, join, joined, lowercase, quote, quoted, texts,
    to_lowercase,
};
use std::collections::{HashMap, HashSet};
use vstd::prelude::*;

verus! {

// ── The cache of a table ─────────────────────────────────────────────────────

/// The columns in one record format.
pub open spec fn column_infos(cols: Seq<(usize, Seq<char>)>, descs: Seq<Desc>) -> Seq<SlotInfo> {
    cols.map_values(|c: (usize, Seq<char>)| slot_info(c.0, descs))
}

/// The first of the columns from `i` on that has the name, but for the case of letters.
pub open spec fn column_named(cols: Seq<(usize, Seq<char>)>, name: Seq<char>, i: int) -> Option<
    usize,
>
    decreases cols.len() - i,
{
    if i >= cols.len() {
        None
    } else if eq_ascii_fold(cols[i].1, name) {
        Some(i as usize)
    } else {
        column_named(cols, name, i + 1)
    }
}

/// The quoted names of columns in small letters.
pub open spec fn column_names(names: Seq<Seq<char>>) -> Seq<Seq<char>> {
    names.map_values(|n: Seq<char>| quoted(lowercase(n)))
}

impl Image {
    /// The id, the latest format and the columns of a table, or why they are not known.
    pub open spec fn layout(self, table: Seq<char>) -> Option<
        Result<(u16, Seq<Desc>, Seq<(usize, Seq<char>)>), OdsError>,
    > {
        match self.relation_id(table) {
            None => None,
            Some(Err(e)) => Some(Err(e)),
            Some(Ok(rid)) => match self.format(rid, u16::MAX) {
                None => None,
                Some(Err(e)) => Some(Err(e)),
                Some(Ok(descs)) => match self.columns(rid, table) {
                    None => None,
                    Some(Ok(cols)) => Some(Ok((rid, descs, cols))),
                    Some(Err(_)) => Some(Ok((rid, descs, default_columns(descs.len())))),
                },
            },
        }
    }

    /// Whether the pages of a relation can be listed, if it has any.
    pub open spec fn listable(self, pp: Option<u32>) -> bool {
        match pp {
            None => true,
            Some(pp) => self.has_page(pp as int) && self.data_pages(pp as int) is Some,
        }
    }

    /// Whether everything that the cache of a table holds can be read.
    pub open spec fn cacheable(self, table: Seq<char>) -> bool {
        match self.layout(table) {
            None => false,
            Some(Err(_)) => true,
            Some(Ok((rid, descs, cols))) => {
                &&& forall|v: u16| v < 256 ==> (#[trigger] self.format(rid, v)) is Some
                &&& self.first_pp(rid as int) is Some
                &&& self.listable(self.first_pp(rid as int)->0)
            },
        }
    }
}

/// What the formats of a table are in the cache.
pub open spec fn formats_show(
    fmt_slots: Seq<Option<Vec<SlotInfo>>>,
    img: Image,
    rid: u16,
    cols: Seq<(usize, Seq<char>)>,
) -> bool {
    &&& fmt_slots.len() == 256
    &&& forall|v: u16|
        v < 256 ==> match #[trigger] img.format(rid, v) {
            Some(Ok(d)) => fmt_slots[v as int] is Some && fmt_slots[v as int]->0@ == column_infos(
                cols,
                d,
            ),
            _ => fmt_slots[v as int] is None,
        }
}

/// What the page list of a table is in the cache.
pub open spec fn pages_show(c: TableCache, img: Image, pp: Option<u32>) -> bool {
    &&& c.first_pp == pp
    &&& match pp {
        None => c.pp_gen == 0 && c.data_pages@.len() == 0,
        Some(n) => c.pp_gen == page_gen(img, n) && img.data_pages(n as int) == Some(
            c.data_pages@,
        ),
    }
}

/// Whether `c` is the cache that a table starts with. The keys that were saved are taken
/// over if keys are tracked.
pub open spec fn cache_shows(
    c: TableCache,
    img: Image,
    table: Seq<char>,
    pk_fields: Seq<Seq<char>>,
    snapshot: Option<Map<u32, Vec<u8>>>,
) -> bool {
    match img.layout(table) {
        Some(Ok((rid, descs, cols))) => {
            &&& c.relation_id == rid
            &&& c.slots@ == column_infos(cols, descs)
            &&& formats_show(c.fmt_slots@, img, rid, cols)
            &&& texts(c.col_names@) == column_names(
                cols.map_values(|x: (usize, Seq<char>)| x.1),
            )
            &&& texts(c.pk_col_names@) == column_names(pk_fields)
            &&& c.n_fields == count16(cols.len() as int)
            &&& c.n_pk == count16(pk_fields.len() as int)
            &&& c.pk_indices@ == pk_fields.map_values(|n: Seq<char>| column_named(cols, n, 0))
            &&& c.pk_tracked <==> (forall|i: int|
                0 <= i < c.pk_indices@.len() ==> (#[trigger] c.pk_indices@[i]) is Some)
            &&& c.pk_byte_len == key_stride(c.pk_indices@, c.slots@)
            &&& pages_show(c, img, img.first_pp(rid as int)->0)
            &&& c.prev_pks_per_page@ == (if snapshot is Some && c.pk_byte_len > 0 {
                snapshot->0
            } else {
                Map::empty()
            })
        },
        _ => false,
    }
}

proof fn lemma_column_named_bounds(cols: Seq<(usize, Seq<char>)>, name: Seq<char>, i: int)
    requires
        0 <= i,
        cols.len() <= usize::MAX,
    ensures
        column_named(cols, name, i) is Some ==> i <= column_named(cols, name, i)->0 < cols.len(),
    decreases cols.len() - i,
{
    if i < cols.len() && !eq_ascii_fold(cols[i].1, name) {
        lemma_column_named_bounds(cols, name, i + 1);
    }
}

/// A cache that a table starts with is well formed.
pub proof fn lemma_cache_wf(
    c: TableCache,
    img: Image,
    table: Seq<char>,
    pk_fields: Seq<Seq<char>>,
    snapshot: Option<Map<u32, Vec<u8>>>,
)
    requires
        cache_shows(c, img, table, pk_fields, snapshot),
        c.slots@.len() <= usize::MAX,
    ensures
        c.wf(),
{
    let (rid, descs, cols) = img.layout(table)->0->Ok_0;
    assert forall|i: int, fmt: u8|
        0 <= i < c.pk_indices@.len() && (#[trigger] c.pk_indices@[i]) is Some implies (
    #[trigger] c.slots_in(fmt)).len() > c.pk_indices@[i]->0 by {
        lemma_column_named_bounds(cols, pk_fields[i], 0);
        let v: u16 = fmt as u16;
        match img.format(rid, v) {
            Some(Ok(d)) => {
                assert(c.fmt_slots@[v as int]->0@ == column_infos(cols, d));
            },
            _ => {
                assert(c.fmt_slots@[v as int] is None);
            },
        }
        assert(c.slots_in(fmt).len() == cols.len());
    }
    if c.pk_byte_len > 0 {
        assert forall|i: int| 0 <= i < c.pk_indices@.len() implies (
        #[trigger] c.pk_indices@[i]) is Some by {}
    }
}

fn find_column(cols: &Vec<(usize, String)>, name: &str) -> (r: Option<usize>)
    ensures
        r == column_named(column_views(cols@), name@, 0),
{
    let ghost views = column_views(cols@);
    let mut i: usize = 0;
    while i < cols.len()
        invariant
            i <= cols@.len(),
            views == column_views(cols@),
            column_named(views, name@, 0) == column_named(views, name@, i as int),
        decreases cols@.len() - i,
    {
        assert(views[i as int].1 == cols@[i as int].1@);
        if eq_ignore_ascii_case(cols[i].1.as_str(), name) {
            return Some(i);
        }
        i = i + 1;
    }
    None
}

/// Reads the columns of every format of a table.
fn read_all_formats(db: &OdsReader, rid: u16, cols: &Vec<(usize, String)>) -> (r: Vec<
    Option<Vec<SlotInfo>>,
>)
    requires
        db.wf(),
        forall|v: u16| v < 256 ==> (#[trigger] db@.format(rid, v)) is Some,
    ensures
        formats_show(r@, db@, rid, column_views(cols@)),
{
    let mut out: Vec<Option<Vec<SlotInfo>>> = Vec::new();
    let mut v: u16 = 0;
    while v < 256
        invariant
            v <= 256,
            db.wf(),
            forall|v: u16| v < 256 ==> (#[trigger] db@.format(rid, v)) is Some,
            out@.len() == v,
            forall|k: u16|
                k < v ==> match #[trigger] db@.format(rid, k) {
                    Some(Ok(d)) => out@[k as int] is Some && out@[k as int]->0@ == column_infos(
                        column_views(cols@),
                        d,
                    ),
                    _ => out@[k as int] is None,
                },
        decreases 256 - v,
    {
        assert(db@.format(rid, v) is Some);
        match db.read_format(rid, v) {
            Ok(d) => {
                let slots: Vec<SlotInfo> = build_slots(cols.as_slice(), d.as_slice());
                assert(slots@ =~= column_infos(column_views(cols@), d@));
                out.push(Some(slots));
            },
            Err(_) => {
                out.push(None);
            },
        }
        v = v + 1;
    }
    out
}

/// The quoted names of columns in small letters.
fn quote_names(cols: &Vec<(usize, String)>) -> (r: Vec<String>)
    ensures
        texts(r@) == column_names(
            column_views(cols@).map_values(|x: (usize, Seq<char>)| x.1),
        ),
{
    let ghost want = column_names(column_views(cols@).map_values(|x: (usize, Seq<char>)| x.1));
    let mut out: Vec<String> = Vec::new();
    let mut i: usize = 0;
    while i < cols.len()
        invariant
            i <= cols@.len(),
            want == column_names(column_views(cols@).map_values(|x: (usize, Seq<char>)| x.1)),
            texts(out@) =~= want.take(i as int),
        decreases cols@.len() - i,
    {
        let low: String = to_lowercase(cols[i].1.as_str());
        let s: String = quote(low.as_str());
        let ghost before = texts(out@);
        out.push(s);
        proof {
            assert(want[i as int] == s@);
            assert(texts(out@) =~= before.push(s@));
        }
        i = i + 1;
    }
    assert(texts(out@) =~= want);
    out
}

pub(crate) fn quote_key_names(names: &[String]) -> (r: Vec<String>)
    ensures
        texts(r@) == column_names(texts(names@)),
{
    let ghost want = column_names(texts(names@));
    let mut out: Vec<String> = Vec::new();
    let mut i: usize = 0;
    while i < names.len()
        invariant
            i <= names@.len(),
            want == column_names(texts(names@)),
            texts(out@) =~= want.take(i as int),
        decreases names@.len() - i,
    {
        let low: String = to_lowercase(names[i].as_str());
        let s: String = quote(low.as_str());
        let ghost before = texts(out@);
        out.push(s);
        proof {
            assert(want[i as int] == s@);
            assert(texts(out@) =~= before.push(s@));
        }
        i = i + 1;
    }
    assert(texts(out@) =~= want);
    out
}

/// The place of each column of the key among the columns.
fn find_key(cols: &Vec<(usize, String)>, pk_fields: &[String]) -> (r: Vec<Option<usize>>)
    ensures
        r@ == texts(pk_fields@).map_values(
            |n: Seq<char>| column_named(column_views(cols@), n, 0),
        ),
{
    let ghost views = column_views(cols@);
    let ghost want = texts(pk_fields@).map_values(|n: Seq<char>| column_named(views, n, 0));
    let mut out: Vec<Option<usize>> = Vec::new();
    let mut i: usize = 0;
    while i < pk_fields.len()
        invariant
            i <= pk_fields@.len(),
            views == column_views(cols@),
            want == texts(pk_fields@).map_values(|n: Seq<char>| column_named(views, n, 0)),
            out@ =~= want.take(i as int),
        decreases pk_fields@.len() - i,
    {
        let at: Option<usize> = find_column(cols, pk_fields[i].as_str());
        assert(want[i as int] == at);
        out.push(at);
        i = i + 1;
    }
    assert(out@ =~= want);
    out
}

fn all_known(pk: &Vec<Option<usize>>) -> (r: bool)
    ensures
        r <==> (forall|i: int| 0 <= i < pk@.len() ==> (#[trigger] pk@[i]) is Some),
{
    let mut i: usize = 0;
    while i < pk.len()
        invariant
            i <= pk@.len(),
            forall|k: int| 0 <= k < i ==> (#[trigger] pk@[k]) is Some,
        decreases pk@.len() - i,
    {
        if pk[i].is_none() {
            assert(pk@[i as int] is None);
            return false;
        }
        i = i + 1;
    }
    true
}

fn count_i16(n: usize) -> (r: i16)
    ensures
        r == count16(n as int),
{
    crate::bytes::to_i16((n as u64 % 0x1_0000) as u16)
}

/// The generation of a page.
fn read_page_gen(db: &OdsReader, n: u32) -> (r: u32)
    requires
        db.wf(),
        db@.has_page(n as int),
    ensures
        r == page_gen(db@, n),
{
    get_u32(db.page(n), 4)
}

/// Reads what the cache of a table starts with.
pub fn new_cache(
    db: &OdsReader,
    table: &str,
    pk_fields: &[String],
    snapshot: Option<HashMap<u32, Vec<u8>>>,
) -> (r: Result<TableCache, OdsError>)
    requires
        db.wf(),
        db@.cacheable(table@),
        12 * pk_fields@.len() <= usize::MAX,
    ensures
        match r {
            Ok(c) => c.wf() && cache_shows(
                c,
                db@,
                table@,
                texts(pk_fields@),
                snapshot_view(snapshot),
            ),
            Err(e) => db@.layout(table@) == Some(
                Err::<(u16, Seq<Desc>, Seq<(usize, Seq<char>)>), OdsError>(e),
            ),
        },
{
    let relation_id: u16 = match db.find_relation_id(table) {
        Ok(rid) => rid,
        Err(e) => {
            return Err(e);
        },
    };
    let descs: Vec<Desc> = match db.read_format(relation_id, u16::MAX) {
        Ok(d) => d,
        Err(e) => {
            return Err(e);
        },
    };
    let cols: Vec<(usize, String)> = match db.read_field_names(relation_id, table) {
        Ok(f) => f,
        Err(_) => numbered_columns(descs.len()),
    };
    let ghost views = column_views(cols@);
    assert(db@.layout(table@) == Some(
        Ok::<(u16, Seq<Desc>, Seq<(usize, Seq<char>)>), OdsError>((relation_id, descs@, views)),
    ));
    let slots: Vec<SlotInfo> = build_slots(cols.as_slice(), descs.as_slice());
    assert(slots@ =~= column_infos(views, descs@));
    let fmt_slots: Vec<Option<Vec<SlotInfo>>> = read_all_formats(db, relation_id, &cols);
    let pk_indices: Vec<Option<usize>> = find_key(&cols, pk_fields);
    proof {
        assert(cols.len() <= usize::MAX && views.len() == cols@.len());
        assert forall|i: int|
            0 <= i < pk_indices@.len() && (#[trigger] pk_indices@[i]) is Some implies
            pk_indices@[i]->0 < slots@.len() by {
            lemma_column_named_bounds(views, texts(pk_fields@)[i], 0);
        }
    }
    let col_names: Vec<String> = quote_names(&cols);
    let pk_col_names: Vec<String> = quote_key_names(pk_fields);
    let n_fields: i16 = count_i16(slots.len());
    let n_pk: i16 = count_i16(pk_indices.len());
    let pk_tracked: bool = all_known(&pk_indices);
    let pk_byte_len: usize = pk_pgcopy_stride(pk_indices.as_slice(), slots.as_slice());
    let first_pp: Option<u32> = db.find_first_pp(relation_id);
    let mut pp_gen: u32 = 0;
    let mut data_pages: Vec<u32> = Vec::new();
    if let Some(pp) = first_pp {
        pp_gen = read_page_gen(db, pp);
        data_pages = db.data_pages_for(pp);
    }
    let prev_pks_per_page: HashMap<u32, Vec<u8>> = match snapshot {
        Some(snap) => if pk_byte_len > 0 {
            snap
        } else {
            HashMap::new()
        },
        None => HashMap::new(),
    };
    let c: TableCache = TableCache {
        relation_id,
        slots,
        fmt_slots,
        col_names,
        pk_col_names,
        n_fields,
        n_pk,
        pk_indices,
        first_pp,
        pp_gen,
        data_pages,
        prev_pks_per_page,
        pk_tracked,
        pk_byte_len,
    };
    proof {
        assert(c.slots.len() <= usize::MAX);
        lemma_cache_wf(c, db@, table@, texts(pk_fields@), snapshot_view(snapshot));
    }
    Ok(c)
}

/// The contents of saved keys.
pub open spec fn snapshot_view(s: Option<HashMap<u32, Vec<u8>>>) -> Option<Map<u32, Vec<u8>>> {
    match s {
        Some(m) => Some(m@),
        None => None,
    }
}

// ── The page list ────────────────────────────────────────────────────────────

/// The first pointer page of a table, looked up again where it had none.
pub open spec fn current_pp(img: Image, c: TableCache) -> Option<u32> {
    match c.first_pp {
        None => img.first_pp(c.relation_id as int)->0,
        Some(pp) => Some(pp),
    }
}

/// Whether the page list of a table has to be read anew: the table got its first page, or
/// its pointer page changed.
pub open spec fn is_renewed(img: Image, c: TableCache) -> bool {
    match current_pp(img, c) {
        None => false,
        Some(pp) => c.first_pp is None || page_gen(img, pp) != c.pp_gen,
    }
}

/// Whether the page list can be brought up to date.
pub open spec fn refreshable(img: Image, c: TableCache) -> bool {
    &&& c.first_pp is None ==> img.first_pp(c.relation_id as int) is Some
    &&& match current_pp(img, c) {
        None => true,
        Some(pp) => img.has_page(pp as int) && (is_renewed(img, c) ==> img.data_pages(
            pp as int,
        ) is Some),
    }
}

/// Whether `d` is `c` with its page list up to date.
pub open spec fn refreshed_to(c: TableCache, d: TableCache, img: Image) -> bool {
    if is_renewed(img, c) {
        &&& d == (TableCache {
            first_pp: d.first_pp,
            pp_gen: d.pp_gen,
            data_pages: d.data_pages,
            ..c
        })
        &&& pages_show(d, img, current_pp(img, c))
    } else {
        d == c
    }
}

/// Brings the page list up to date. Returns `None` where the table has no page, else
/// whether the list was read anew.
pub fn refresh_pages(db: &OdsReader, c: &mut TableCache) -> (r: Option<bool>)
    requires
        db.wf(),
        refreshable(db@, *old(c)),
    ensures
        match r {
            None => current_pp(db@, *old(c)) is None && *final(c) == *old(c),
            Some(renewed) => {
                &&& current_pp(db@, *old(c)) is Some
                &&& renewed == is_renewed(db@, *old(c))
                &&& refreshed_to(*old(c), *final(c), db@)
            },
        },
{
    match c.first_pp {
        None => match db.find_first_pp(c.relation_id) {
            None => None,
            Some(pp) => {
                c.first_pp = Some(pp);
                c.pp_gen = read_page_gen(db, pp);
                c.data_pages = db.data_pages_for(pp);
                Some(true)
            },
        },
        Some(pp) => {
            let gen: u32 = read_page_gen(db, pp);
            if gen != c.pp_gen {
                c.data_pages = db.data_pages_for(pp);
                c.pp_gen = gen;
                Some(true)
            } else {
                Some(false)
            }
        },
    }
}

// ── Statistics ───────────────────────────────────────────────────────────────

/// What a cycle did to a table, and how long it took.
#[derive(Clone, Copy)]
pub struct DeltaStats {
    pub upserts: u64,
    pub deletes: u64,
    pub max_txn: u64,
    pub pages_total: u32,
    pub pages_skipped: u32,
    pub pages_scanned: u32,
    pub records_checked: u64,
    pub scan_ns: u64,
    pub pg_ns: u64,
    pub express_deletes: u64,
    pub sort_page_ns: u64,
    pub sort_alive_ns: u64,
    pub express_ns: u64,
    pub setup_ns: u64,
    pub copy_start_ns: u64,
    pub scan_pure_ns: u64,
    pub copy_finish_ns: u64,
    pub del_copy_ns: u64,
    pub delete_sql_ns: u64,
    pub upsert_sql_ns: u64,
    pub cleanup_ns: u64,
    pub commit_ns: u64,
}

/// The statistics of a table that has no page.
pub open spec fn idle_stats(last_txn: u64) -> DeltaStats {
    DeltaStats {
        upserts: 0,
        deletes: 0,
        max_txn: last_txn,
        pages_total: 0,
        pages_skipped: 0,
        pages_scanned: 0,
        records_checked: 0,
        scan_ns: 0,
        pg_ns: 0,
        express_deletes: 0,
        sort_page_ns: 0,
        sort_alive_ns: 0,
        express_ns: 0,
        setup_ns: 0,
        copy_start_ns: 0,
        scan_pure_ns: 0,
        copy_finish_ns: 0,
        del_copy_ns: 0,
        delete_sql_ns: 0,
        upsert_sql_ns: 0,
        cleanup_ns: 0,
        commit_ns: 0,
    }
}

fn no_stats(last_txn: u64) -> (r: DeltaStats)
    ensures
        r == idle_stats(last_txn),
{
    DeltaStats {
        upserts: 0,
        deletes: 0,
        max_txn: last_txn,
        pages_total: 0,
        pages_skipped: 0,
        pages_scanned: 0,
        records_checked: 0,
        scan_ns: 0,
        pg_ns: 0,
        express_deletes: 0,
        sort_page_ns: 0,
        sort_alive_ns: 0,
        express_ns: 0,
        setup_ns: 0,
        copy_start_ns: 0,
        scan_pure_ns: 0,
        copy_finish_ns: 0,
        del_copy_ns: 0,
        delete_sql_ns: 0,
        upsert_sql_ns: 0,
        cleanup_ns: 0,
        commit_ns: 0,
    }
}

/// Whether the statistics are those of a scan and of the times of its merge.
pub open spec fn stats_show(
    s: DeltaStats,
    scan: ScanOutput,
    scan_pure_ns: u64,
    t: ApplyTiming,
) -> bool {
    &&& s.upserts == scan.upserts
    &&& s.deletes == scan.deletes
    &&& s.max_txn == scan.max_txn
    &&& s.pages_total == scan.pages_total
    &&& s.pages_skipped == scan.pages_skipped
    &&& s.pages_scanned == if scan.pages_total >= scan.pages_skipped {
        scan.pages_total - scan.pages_skipped
    } else {
        0
    }
    &&& s.records_checked == scan.records_checked
    &&& s.express_deletes == scan.express_deletes
    &&& s.sort_page_ns == scan.sort_page_ns
    &&& s.sort_alive_ns == scan.sort_alive_ns
    &&& s.express_ns == scan.express_ns
    &&& s.setup_ns == t.setup_ns
    &&& s.copy_start_ns == t.copy_start_ns
    &&& s.scan_pure_ns == scan_pure_ns
    &&& s.copy_finish_ns == t.copy_finish_ns
    &&& s.del_copy_ns == t.del_copy_ns
    &&& s.delete_sql_ns == t.delete_sql_ns
    &&& s.upsert_sql_ns == t.upsert_sql_ns
    &&& s.cleanup_ns == t.cleanup_ns
    &&& s.commit_ns == t.commit_ns
    &&& s.scan_ns == sum64(sum64(t.copy_start_ns, scan_pure_ns), t.copy_finish_ns)
    &&& s.pg_ns == sum64(
        sum64(sum64(t.del_copy_ns, t.delete_sql_ns), t.upsert_sql_ns),
        t.cleanup_ns,
    )
}

// ── Taking note ──────────────────────────────────────────────────────────────

/// The generations of the pages after a scan was applied. Pages that are no longer listed
/// are dropped when the list was read anew.
pub open spec fn settled_gens(
    gens: Map<u32, u32>,
    scan: ScanOutput,
    d: TableCache,
    renewed: bool,
) -> Map<u32, u32> {
    let all = gens.union_prefer_right(scan.new_gens@);
    if renewed {
        all.restrict(d.data_pages@.to_set())
    } else {
        all
    }
}

/// The keys of the pages after a scan was applied.
pub open spec fn settled_keys(scan: ScanOutput, d: TableCache, renewed: bool) -> Map<
    u32,
    Vec<u8>,
> {
    let all = if d.pk_byte_len > 0 {
        d.prev_pks_per_page@.union_prefer_right(scan.new_pks_per_page@)
    } else {
        d.prev_pks_per_page@
    };
    if renewed {
        all.restrict(d.data_pages@.to_set())
    } else {
        all
    }
}

/// Whether the cache `e` and the generations `gens` are what is kept once a scan of `d`
/// was applied.
pub open spec fn settled(
    d: TableCache,
    e: TableCache,
    old_gens: Map<u32, u32>,
    gens: Map<u32, u32>,
    scan: ScanOutput,
    renewed: bool,
) -> bool {
    &&& gens == settled_gens(old_gens, scan, d, renewed)
    &&& e == (TableCache { prev_pks_per_page: e.prev_pks_per_page, ..d })
    &&& e.prev_pks_per_page@ == settled_keys(scan, d, renewed)
}

/// Takes note of a scan that was applied.
pub fn settle(
    c: &mut TableCache,
    page_gens: &mut HashMap<u32, u32>,
    scan: ScanOutput,
    renewed: bool,
    scan_pure_ns: u64,
    t: ApplyTiming,
) -> (r: DeltaStats)
    ensures
        settled(*old(c), *final(c), old(page_gens)@, final(page_gens)@, scan, renewed),
        stats_show(r, scan, scan_pure_ns, t),
{
    let pages_scanned: u32 = if scan.pages_total >= scan.pages_skipped {
        scan.pages_total - scan.pages_skipped
    } else {
        0
    };
    let stats: DeltaStats = DeltaStats {
        upserts: scan.upserts,
        deletes: scan.deletes,
        max_txn: scan.max_txn,
        pages_total: scan.pages_total,
        pages_skipped: scan.pages_skipped,
        pages_scanned,
        records_checked: scan.records_checked,
        scan_ns: t.copy_start_ns.saturating_add(scan_pure_ns).saturating_add(t.copy_finish_ns),
        pg_ns: t.del_copy_ns.saturating_add(t.delete_sql_ns).saturating_add(
            t.upsert_sql_ns,
        ).saturating_add(t.cleanup_ns),
        express_deletes: scan.express_deletes,
        sort_page_ns: scan.sort_page_ns,
        sort_alive_ns: scan.sort_alive_ns,
        express_ns: scan.express_ns,
        setup_ns: t.setup_ns,
        copy_start_ns: t.copy_start_ns,
        scan_pure_ns,
        copy_finish_ns: t.copy_finish_ns,
        del_copy_ns: t.del_copy_ns,
        delete_sql_ns: t.delete_sql_ns,
        upsert_sql_ns: t.upsert_sql_ns,
        cleanup_ns: t.cleanup_ns,
        commit_ns: t.commit_ns,
    };
    put_all(page_gens, scan.new_gens);
    if c.pk_byte_len > 0 {
        put_all(&mut c.prev_pks_per_page, scan.new_pks_per_page);
    }
    if renewed {
        let live: HashSet<u32> = set_of(&c.data_pages);
        retain_live(&mut c.prev_pks_per_page, &live);
        retain_live(page_gens, &live);
    }
    stats
}

// ── A cycle of a table ───────────────────────────────────────────────────────

/// What a merge has to know of a table.
pub open spec fn meta_shows(meta: MergeMeta, table: Seq<char>, c: TableCache) -> bool {
    &&& meta.pg_table@ == lowercase(table)
    &&& meta.cols_csv@ == joined(texts(c.col_names@), ", "@)
    &&& meta.pk_csv@ == joined(texts(c.pk_col_names@), ", "@)
    &&& texts(meta.pk_col_names@) == texts(c.pk_col_names@)
}

/// What a merge has to know of a table.
pub fn merge_meta(table: &str, c: &TableCache) -> (r: MergeMeta)
    ensures
        meta_shows(r, table@, *c),
{
    let mut names: Vec<String> = Vec::new();
    let mut i: usize = 0;
    while i < c.pk_col_names.len()
        invariant
            i <= c.pk_col_names@.len(),
            texts(names@) =~= texts(c.pk_col_names@).take(i as int),
        decreases c.pk_col_names@.len() - i,
    {
        let ghost before = texts(names@);
        let s: String = c.pk_col_names[i].clone();
        names.push(s);
        assert(texts(names@) =~= before.push(s@));
        i = i + 1;
    }
    assert(texts(names@) =~= texts(c.pk_col_names@));
    MergeMeta {
        pg_table: to_lowercase(table),
        cols_csv: join(&c.col_names, ", "),
        pk_csv: join(&c.pk_col_names, ", "),
        pk_col_names: names,
    }
}

/// Why a table could not be brought up to date.
#[derive(Debug)]
pub enum SyncError {
    /// The database does not say what the table looks like.
    Ods(OdsError),
    /// The changes were not applied.
    Sink(SinkError),
}

/// The rows of a scan of the pages of `d` that were inserted or updated, as a stream.
pub open spec fn upsert_stream(
    img: Image,
    d: TableCache,
    last_txn: u64,
    gens: Map<u32, u32>,
) -> Seq<u8> {
    copy_header() + concat(
        found(scan_visits(img, d, last_txn, gens, d.data_pages@)->0, last_txn).upserts,
    ) + copy_trailer()
}

/// The call by which what a scan of `d` found is handed to a sink.
pub open spec fn offer_of(
    img: Image,
    table: Seq<char>,
    d: TableCache,
    scan: ScanOutput,
    last_txn: u64,
    gens: Map<u32, u32>,
    debug: bool,
    answer: Result<ApplyTiming, SinkError>,
) -> Offer {
    Offer {
        pg_table: lowercase(table),
        cols_csv: joined(texts(d.col_names@), ", "@),
        pk_csv: joined(texts(d.pk_col_names@), ", "@),
        pk_col_names: texts(d.pk_col_names@),
        upserts: upsert_stream(img, d, last_txn, gens),
        deletes: scan.delete_buf@,
        n_upserts: scan.upserts,
        n_deletes: scan.deletes,
        debug,
        answer,
    }
}

/// Whether a scan found anything to apply.
pub open spec fn has_changes(scan: ScanOutput) -> bool {
    scan.upserts > 0 || scan.deletes > 0
}

/// The times of a merge that did not take place.
pub open spec fn no_timing() -> ApplyTiming {
    ApplyTiming {
        setup_ns: 0,
        copy_start_ns: 0,
        copy_finish_ns: 0,
        del_copy_ns: 0,
        delete_sql_ns: 0,
        upsert_sql_ns: 0,
        cleanup_ns: 0,
        commit_ns: 0,
    }
}

/// Whether a cycle starts with the cache `c`: the one that is there, or a new one.
pub open spec fn starts_with(
    c: TableCache,
    img: Image,
    table: Seq<char>,
    pk_fields: Seq<Seq<char>>,
    cache: Option<TableCache>,
    snapshot: Option<Map<u32, Vec<u8>>>,
) -> bool {
    match cache {
        Some(old_cache) => c == old_cache,
        None => c.wf() && cache_shows(c, img, table, pk_fields, snapshot),
    }
}

/// Whether the pages of `d` can be scanned.
pub open spec fn scannable(
    img: Image,
    d: TableCache,
    last_txn: u64,
    gens: Map<u32, u32>,
) -> bool {
    &&& d.data_pages@.len() <= u32::MAX
    &&& scan_visits(img, d, last_txn, gens, d.data_pages@) is Some
}

/// Whether a cycle can read everything that it needs.
pub open spec fn syncable(
    img: Image,
    table: Seq<char>,
    pk_fields: Seq<Seq<char>>,
    cache: Option<TableCache>,
    snapshot: Option<Map<u32, Vec<u8>>>,
    last_txn: u64,
    gens: Map<u32, u32>,
) -> bool {
    &&& cache is Some ==> cache->0.wf()
    &&& cache is None ==> img.cacheable(table)
    &&& forall|c: TableCache|
        #![trigger refreshable(img, c)]
        starts_with(c, img, table, pk_fields, cache, snapshot) ==> refreshable(img, c)
    &&& forall|c: TableCache, d: TableCache|
        #![trigger refreshed_to(c, d, img)]
        starts_with(c, img, table, pk_fields, cache, snapshot) && current_pp(img, c) is Some
            && refreshed_to(c, d, img) ==> scannable(img, d, last_txn, gens)
}

/// Whether a cycle that started with `c` scanned `d` with the result `scan`.
pub open spec fn scanned(
    c: TableCache,
    d: TableCache,
    scan: ScanOutput,
    img: Image,
    last_txn: u64,
    gens: Map<u32, u32>,
) -> bool {
    &&& current_pp(img, c) is Some
    &&& refreshed_to(c, d, img)
    &&& scan_shows(scan, img, d, last_txn, gens)
}

/// Whether a cycle that started with `c` was applied: the table has no page, or what a
/// scan found was handed to the sink, unless there was nothing, and taken note of.
pub open spec fn cycle_applied(
    c: TableCache,
    e: TableCache,
    img: Image,
    table: Seq<char>,
    last_txn: u64,
    old_gens: Map<u32, u32>,
    gens: Map<u32, u32>,
    stats: DeltaStats,
    debug: bool,
    old_offers: Option<Seq<Offer>>,
    offers: Option<Seq<Offer>>,
) -> bool {
    if current_pp(img, c) is None {
        &&& e == c
        &&& gens == old_gens
        &&& stats == idle_stats(last_txn)
        &&& offers == old_offers
    } else {
        exists|d: TableCache, scan: ScanOutput, ns: u64, t: ApplyTiming|
            #![trigger scanned(c, d, scan, img, last_txn, old_gens), stats_show(stats, scan, ns, t)]
            {
                &&& scanned(c, d, scan, img, last_txn, old_gens)
                &&& settled(d, e, old_gens, gens, scan, is_renewed(img, c))
                &&& stats_show(stats, scan, ns, t)
                &&& !has_changes(scan) ==> t == no_timing()
                &&& offers == if has_changes(scan) {
                    recorded(
                        old_offers,
                        offer_of(img, table, d, scan, last_txn, old_gens, debug, Ok(t)),
                    )
                } else {
                    old_offers
                }
            }
    }
}

/// Whether a cycle that started with `c` found changes that the sink refused with `err`: the
/// page list is up to date, and nothing else was taken note of.
pub open spec fn cycle_refused(
    c: TableCache,
    e: TableCache,
    img: Image,
    table: Seq<char>,
    last_txn: u64,
    gens: Map<u32, u32>,
    debug: bool,
    err: SinkError,
    old_offers: Option<Seq<Offer>>,
    offers: Option<Seq<Offer>>,
) -> bool {
    exists|scan: ScanOutput|
        {
            &&& #[trigger] scanned(c, e, scan, img, last_txn, gens)
            &&& has_changes(scan)
            &&& offers == recorded(
                old_offers,
                offer_of(img, table, e, scan, last_txn, gens, debug, Err(err)),
            )
        }
}

/// The changes of a table, ready to be applied.
pub struct Delta {
    pub meta: MergeMeta,
    pub upsert_buf: Vec<u8>,
    pub scan: ScanOutput,
    pub scan_pure_ns: u64,
}

/// Scans a table and puts together what is to be applied.
pub fn collect_delta(
    db: &OdsReader,
    c: &TableCache,
    table: &str,
    last_txn: u64,
    page_gens: &HashMap<u32, u32>,
) -> (r: Delta)
    requires
        db.wf(),
        c.wf(),
        scannable(db@, *c, last_txn, page_gens@),
    ensures
        meta_shows(r.meta, table@, *c),
        scan_shows(r.scan, db@, *c, last_txn, page_gens@),
        r.upsert_buf@ == upsert_stream(db@, *c, last_txn, page_gens@),
{
    let mut upsert_buf: Vec<u8> = Vec::new();
    let t = start_timer();
    let scan: ScanOutput = scan_changes_into(db, c, last_txn, page_gens, &mut upsert_buf);
    let scan_pure_ns: u64 = elapsed_ns(&t);
    assert(Seq::<u8>::empty() + copy_header() =~= copy_header());
    Delta { meta: merge_meta(table, c), upsert_buf, scan, scan_pure_ns }
}

/// What a cycle leaves behind: `cache` and `gens` become `new_cache` and `new_gens`. A
/// table of which the database does not say what it looks like is left alone. Where the
/// sink refuses the changes, nothing but the page list is taken note of, so that the next
/// cycle finds them again. All else is applied. The sink is called once where there is
/// something to apply, and else not: its calls go from `offers` to `new_offers`.
pub open spec fn sync_shows(
    r: Result<DeltaStats, SyncError>,
    img: Image,
    table: Seq<char>,
    pk_fields: Seq<Seq<char>>,
    cache: Option<TableCache>,
    new_cache: Option<TableCache>,
    snapshot: Option<Map<u32, Vec<u8>>>,
    last_txn: u64,
    gens: Map<u32, u32>,
    new_gens: Map<u32, u32>,
    debug: bool,
    offers: Option<Seq<Offer>>,
    new_offers: Option<Seq<Offer>>,
) -> bool {
    &&& (cache is None && img.layout(table)->0 is Err) <==> (r is Err && r->Err_0 is Ods)
    &&& match r {
        Err(SyncError::Ods(e)) => {
            &&& img.layout(table) == Some(
                Err::<(u16, Seq<Desc>, Seq<(usize, Seq<char>)>), OdsError>(e),
            )
            &&& new_cache == cache
            &&& new_gens == gens
            &&& new_offers == offers
        },
        Err(SyncError::Sink(err)) => {
            &&& new_gens == gens
            &&& new_cache is Some
            &&& exists|c: TableCache|
                {
                    &&& #[trigger] starts_with(c, img, table, pk_fields, cache, snapshot)
                    &&& cycle_refused(
                        c,
                        new_cache->0,
                        img,
                        table,
                        last_txn,
                        gens,
                        debug,
                        err,
                        offers,
                        new_offers,
                    )
                }
        },
        Ok(stats) => {
            &&& new_cache is Some
            &&& exists|c: TableCache|
                {
                    &&& #[trigger] starts_with(c, img, table, pk_fields, cache, snapshot)
                    &&& cycle_applied(
                        c,
                        new_cache->0,
                        img,
                        table,
                        last_txn,
                        gens,
                        new_gens,
                        stats,
                        debug,
                        offers,
                        new_offers,
                    )
                }
        },
    }
}

/// Brings a table up to date: scans it for changes since `last_txn` and hands them to the
/// sink. A sink is only called where there is something to apply, and nothing is taken
/// note of unless it was applied.
pub fn sync_table<S: DeltaSink>(
    db: &OdsReader,
    sink: &mut S,
    table: &str,
    last_txn: u64,
    pk_fields: &[String],
    page_gens: &mut HashMap<u32, u32>,
    cache: &mut Option<TableCache>,
    snapshot_init: Option<HashMap<u32, Vec<u8>>>,
    debug: bool,
) -> (r: Result<DeltaStats, SyncError>)
    requires
        db.wf(),
        12 * pk_fields@.len() <= usize::MAX,
        syncable(
            db@,
            table@,
            texts(pk_fields@),
            *old(cache),
            snapshot_view(snapshot_init),
            last_txn,
            old(page_gens)@,
        ),
    ensures
        sync_shows(
            r,
            db@,
            table@,
            texts(pk_fields@),
            *old(cache),
            *final(cache),
            snapshot_view(snapshot_init),
            last_txn,
            old(page_gens)@,
            final(page_gens)@,
            debug,
            old(sink).offers(),
            final(sink).offers(),
        ),
{
    let ghost pks = texts(pk_fields@);
    let ghost snap = snapshot_view(snapshot_init);
    let mut c: TableCache = match cache.take() {
        Some(c) => c,
        None => match new_cache(db, table, pk_fields, snapshot_init) {
            Ok(c) => c,
            Err(e) => {
                return Err(SyncError::Ods(e));
            },
        },
    };
    let ghost first = c;
    assert(starts_with(first, db@, table@, pks, *old(cache), snap));
    assert(refreshable(db@, first));
    let renewed: bool = match refresh_pages(db, &mut c) {
        None => {
            *cache = Some(c);
            return Ok(no_stats(last_txn));
        },
        Some(renewed) => renewed,
    };
    let ghost ready = c;
    assert(refreshed_to(first, ready, db@));
    proof {
        lemma_refresh_wf(first, ready, db@);
    }
    let delta: Delta = collect_delta(db, &c, table, last_txn, page_gens);
    assert(scanned(first, ready, delta.scan, db@, last_txn, old(page_gens)@));
    let mut timing: ApplyTiming = ApplyTiming::default();
    if delta.scan.upserts > 0 || delta.scan.deletes > 0 {
        match sink.apply_delta(
            &delta.meta,
            delta.upsert_buf.as_slice(),
            delta.scan.delete_buf.as_slice(),
            delta.scan.upserts,
            delta.scan.deletes,
            debug,
        ) {
            Ok(t) => {
                timing = t;
            },
            Err(e) => {
                *cache = Some(c);
                assert(cycle_refused(
                    first,
                    c,
                    db@,
                    table@,
                    last_txn,
                    old(page_gens)@,
                    debug,
                    e,
                    old(sink).offers(),
                    sink.offers(),
                ));
                return Err(SyncError::Sink(e));
            },
        }
    }
    let scan_pure_ns: u64 = delta.scan_pure_ns;
    let ghost scan = delta.scan;
    let stats: DeltaStats = settle(&mut c, page_gens, delta.scan, renewed, scan_pure_ns, timing);
    assert(stats_show(stats, scan, scan_pure_ns, timing));
    *cache = Some(c);
    Ok(stats)
}

/// Bringing the page list up to date leaves the rest of a cache alone.
proof fn lemma_refresh_wf(c: TableCache, d: TableCache, img: Image)
    requires
        c.wf(),
        refreshed_to(c, d, img),
    ensures
        d.wf(),
{
    assert forall|fmt: u8| #[trigger] d.slots_in(fmt) == c.slots_in(fmt) by {}
    assert forall|i: int, fmt: u8|
        0 <= i < d.pk_indices@.len() && (#[trigger] d.pk_indices@[i]) is Some implies (
    #[trigger] d.slots_in(fmt)).len() > d.pk_indices@[i]->0 by {
        assert(c.pk_indices@[i] is Some);
        assert(c.slots_in(fmt).len() > c.pk_indices@[i]->0);
    }
}

/// A cycle leaves a well-formed cache well formed, and its watermark never goes back.
pub proof fn law_cycle_keeps(
    r: Result<DeltaStats, SyncError>,
    img: Image,
    table: Seq<char>,
    pk_fields: Seq<Seq<char>>,
    cache: Option<TableCache>,
    new_cache: Option<TableCache>,
    snapshot: Option<Map<u32, Vec<u8>>>,
    last_txn: u64,
    gens: Map<u32, u32>,
    new_gens: Map<u32, u32>,
    debug: bool,
    offers: Option<Seq<Offer>>,
    new_offers: Option<Seq<Offer>>,
)
    requires
        sync_shows(
            r,
            img,
            table,
            pk_fields,
            cache,
            new_cache,
            snapshot,
            last_txn,
            gens,
            new_gens,
            debug,
            offers,
            new_offers,
        ),
        cache is Some ==> cache->0.wf(),
    ensures
        new_cache is Some ==> new_cache->0.wf(),
        r is Ok ==> r->Ok_0.max_txn >= last_txn,
        r is Ok ==> r->Ok_0.pages_scanned == r->Ok_0.pages_total - r->Ok_0.pages_skipped,
        r is Ok && offers is Some ==> new_offers is Some && new_offers->0.len() == offers->0.len()
            + if r->Ok_0.upserts > 0 || r->Ok_0.deletes
            > 0 {
            1int
        } else {
            0
        },
{
    match r {
        Err(SyncError::Ods(_)) => {},
        Err(SyncError::Sink(err)) => {
            let e = new_cache->0;
            let c = choose|c: TableCache|
                {
                    &&& #[trigger] starts_with(c, img, table, pk_fields, cache, snapshot)
                    &&& cycle_refused(
                        c,
                        e,
                        img,
                        table,
                        last_txn,
                        gens,
                        debug,
                        err,
                        offers,
                        new_offers,
                    )
                };
            lemma_refresh_wf(c, e, img);
        },
        Ok(stats) => {
            let e = new_cache->0;
            let c = choose|c: TableCache|
                {
                    &&& #[trigger] starts_with(c, img, table, pk_fields, cache, snapshot)
                    &&& cycle_applied(
                        c,
                        e,
                        img,
                        table,
                        last_txn,
                        gens,
                        new_gens,
                        stats,
                        debug,
                        offers,
                        new_offers,
                    )
                };
            if current_pp(img, c) is Some {
                let (d, scan, ns, t) = choose|d: TableCache, scan: ScanOutput, ns: u64, t: ApplyTiming|
                    #![trigger scanned(c, d, scan, img, last_txn, gens), stats_show(stats, scan, ns, t)]
                    {
                        &&& scanned(c, d, scan, img, last_txn, gens)
                        &&& settled(d, e, gens, new_gens, scan, is_renewed(img, c))
                        &&& stats_show(stats, scan, ns, t)
                        &&& !has_changes(scan) ==> t == no_timing()
                        &&& new_offers == if has_changes(scan) {
                            recorded(
                                offers,
                                offer_of(img, table, d, scan, last_txn, gens, debug, Ok(t)),
                            )
                        } else {
                            offers
                        }
                    };
                lemma_skipped_is_part(img, gens, d.data_pages@);
                lemma_refresh_wf(c, d, img);
                lemma_same_columns_wf(d, e);
                law_watermark(
                    scan_visits(img, d, last_txn, gens, d.data_pages@)->0,
                    last_txn,
                );
            }
        },
    }
}

/// The pages that were skipped are among those that were looked at.
proof fn lemma_skipped_is_part(img: Image, gens: Map<u32, u32>, dps: Seq<u32>)
    ensures
        unchanged_count(img, gens, dps) <= data_page_count(img, dps),
    decreases dps.len(),
{
    if dps.len() > 0 {
        lemma_skipped_is_part(img, gens, dps.drop_last());
    }
}

proof fn lemma_same_columns_wf(d: TableCache, e: TableCache)
    requires
        d.wf(),
        e == (TableCache { prev_pks_per_page: e.prev_pks_per_page, ..d }),
    ensures
        e.wf(),
{
    assert forall|i: int, fmt: u8|
        0 <= i < e.pk_indices@.len() && (#[trigger] e.pk_indices@[i]) is Some implies (
    #[trigger] e.slots_in(fmt)).len() > e.pk_indices@[i]->0 by {
        assert(d.pk_indices@[i] is Some);
        assert(d.slots_in(fmt).len() > d.pk_indices@[i]->0);
    }
}

/// A delta that the sink refused is not lost: as long as the database does not change, the
/// next cycle collects it again.
pub proof fn law_refused_delta_is_collected_again(
    c: TableCache,
    e: TableCache,
    scan: ScanOutput,
    d: TableCache,
    again: ScanOutput,
    img: Image,
    last_txn: u64,
    gens: Map<u32, u32>,
)
    requires
        scanned(c, e, scan, img, last_txn, gens),
        scanned(e, d, again, img, last_txn, gens),
    ensures
        d == e,
        again.upserts == scan.upserts,
        again.deletes == scan.deletes,
        again.max_txn == scan.max_txn,
        upsert_stream(img, d, last_txn, gens) == upsert_stream(img, e, last_txn, gens),
        again.delete_buf@ == scan.delete_buf@,
{
    assert(!is_renewed(img, e));
    law_repeated_scan_reports_the_same(scan, again, img, e, last_txn, gens);
}

/// Whether two calls of a sink are for the same delta: the same table, the same rows, and
/// the same keys of deleted rows.
pub open spec fn same_delta(a: Offer, b: Offer) -> bool {
    &&& b.pg_table == a.pg_table
    &&& b.cols_csv == a.cols_csv
    &&& b.pk_csv == a.pk_csv
    &&& b.pk_col_names == a.pk_col_names
    &&& b.upserts == a.upserts
    &&& b.n_upserts == a.n_upserts
    &&& b.n_deletes == a.n_deletes
    &&& b.deletes == a.deletes
}

/// A sink that refuses a delta gets it again: where a cycle ended with the sink's error, the
/// generations are as before, and the next cycle after the same transaction hands the sink
/// the same rows and the same deleted keys, as long as the database does not change.
pub proof fn law_refused_delta_is_offered_again(
    err: SinkError,
    r: Result<DeltaStats, SyncError>,
    img: Image,
    table: Seq<char>,
    pk_fields: Seq<Seq<char>>,
    cache: Option<TableCache>,
    cache1: Option<TableCache>,
    cache2: Option<TableCache>,
    snapshot: Option<Map<u32, Vec<u8>>>,
    snapshot2: Option<Map<u32, Vec<u8>>>,
    last_txn: u64,
    gens: Map<u32, u32>,
    gens1: Map<u32, u32>,
    gens2: Map<u32, u32>,
    debug: bool,
    offers: Seq<Offer>,
    offers1: Option<Seq<Offer>>,
    offers2: Option<Seq<Offer>>,
)
    requires
        sync_shows(
            Err(SyncError::Sink(err)),
            img,
            table,
            pk_fields,
            cache,
            cache1,
            snapshot,
            last_txn,
            gens,
            gens1,
            debug,
            Some(offers),
            offers1,
        ),
        sync_shows(
            r,
            img,
            table,
            pk_fields,
            cache1,
            cache2,
            snapshot2,
            last_txn,
            gens1,
            gens2,
            debug,
            offers1,
            offers2,
        ),
    ensures
        gens1 == gens,
        cache is Some ==> cache1->0.prev_pks_per_page == cache->0.prev_pks_per_page,
        offers1 is Some,
        offers1->0.len() == offers.len() + 1,
        offers1->0.drop_last() == offers,
        offers1->0.last().answer == Err::<ApplyTiming, SinkError>(err),
        offers2 is Some,
        offers2->0.len() == offers.len() + 2,
        offers2->0.drop_last() == offers1->0,
        same_delta(offers1->0.last(), offers2->0.last()),
        match r {
            Ok(_) => offers2->0.last().answer is Ok,
            Err(SyncError::Sink(e)) => offers2->0.last().answer == Err::<ApplyTiming, SinkError>(e),
            Err(SyncError::Ods(_)) => false,
        },
{
    let e = cache1->0;
    let c = choose|c: TableCache|
        {
            &&& #[trigger] starts_with(c, img, table, pk_fields, cache, snapshot)
            &&& cycle_refused(
                c,
                e,
                img,
                table,
                last_txn,
                gens,
                debug,
                err,
                Some(offers),
                offers1,
            )
        };
    let scan = choose|scan: ScanOutput|
        {
            &&& #[trigger] scanned(c, e, scan, img, last_txn, gens)
            &&& has_changes(scan)
            &&& offers1 == recorded(
                Some(offers),
                offer_of(img, table, e, scan, last_txn, gens, debug, Err(err)),
            )
        };
    let o1 = offer_of(img, table, e, scan, last_txn, gens, debug, Err(err));
    assert(offers.push(o1).drop_last() =~= offers);
    match r {
        Err(SyncError::Ods(_)) => {},
        Err(SyncError::Sink(err2)) => {
            let d = cache2->0;
            assert(cycle_refused(
                e,
                d,
                img,
                table,
                last_txn,
                gens,
                debug,
                err2,
                offers1,
                offers2,
            ));
            let again = choose|again: ScanOutput|
                {
                    &&& #[trigger] scanned(e, d, again, img, last_txn, gens)
                    &&& has_changes(again)
                    &&& offers2 == recorded(
                        offers1,
                        offer_of(img, table, d, again, last_txn, gens, debug, Err(err2)),
                    )
                };
            law_refused_delta_is_collected_again(c, e, scan, d, again, img, last_txn, gens);
            let o2 = offer_of(img, table, d, again, last_txn, gens, debug, Err(err2));
            assert(offers1->0.push(o2).drop_last() =~= offers1->0);
        },
        Ok(stats) => {
            let e2 = cache2->0;
            assert(cycle_applied(
                e,
                e2,
                img,
                table,
                last_txn,
                gens,
                gens2,
                stats,
                debug,
                offers1,
                offers2,
            ));
            let (d, again, ns, t) = choose|
                d: TableCache,
                again: ScanOutput,
                ns: u64,
                t: ApplyTiming,
            |
                #![trigger scanned(e, d, again, img, last_txn, gens), stats_show(stats, again, ns, t)]
                {
                    &&& scanned(e, d, again, img, last_txn, gens)
                    &&& settled(d, e2, gens, gens2, again, is_renewed(img, e))
                    &&& stats_show(stats, again, ns, t)
                    &&& !has_changes(again) ==> t == no_timing()
                    &&& offers2 == if has_changes(again) {
                        recorded(
                            offers1,
                            offer_of(img, table, d, again, last_txn, gens, debug, Ok(t)),
                        )
                    } else {
                        offers1
                    }
                };
            law_refused_delta_is_collected_again(c, e, scan, d, again, img, last_txn, gens);
            let o2 = offer_of(img, table, d, again, last_txn, gens, debug, Ok(t));
            assert(offers1->0.push(o2).drop_last() =~= offers1->0);
        },
    }
}

/// What a cycle keeps of the keys are whole keys again.
pub proof fn law_settled_keys_are_whole(
    d: TableCache,
    e: TableCache,
    scan: ScanOutput,
    img: Image,
    last_txn: u64,
    gens: Map<u32, u32>,
    new_gens: Map<u32, u32>,
    renewed: bool,
)
    requires
        scan_shows(scan, img, d, last_txn, gens),
        settled(d, e, gens, new_gens, scan, renewed),
        d.pk_byte_len > 0,
        whole_keys(d.prev_pks_per_page@, d.pk_byte_len as int),
    ensures
        whole_keys(e.prev_pks_per_page@, e.pk_byte_len as int),
{
    law_scanned_keys_are_whole(scan, img, d, last_txn, gens);
    let kept = e.prev_pks_per_page@;
    let before = d.prev_pks_per_page@;
    let now = scan.new_pks_per_page@;
    let stride = d.pk_byte_len as int;
    assert forall|n: u32| #[trigger] kept.contains_key(n) implies kept[n]@.len() as int % stride
        == 0 by {
        assert(before.contains_key(n) || now.contains_key(n));
    }
}

proof fn lemma_same_columns_bytes(rec: Seq<u8>, fids: Seq<usize>, descs: Seq<Desc>, n: int)
    requires
        0 <= n <= fids.len(),
    ensures
        columns_bytes(
            rec,
            fids.map_values(|fid: usize| slot_info(fid, descs).column()),
            n,
        ) == columns_bytes(rec, copy_slots_of(fids, descs), n),
    decreases n,
{
    if n > 0 {
        lemma_same_columns_bytes(rec, fids, descs, n - 1);
        let fid = fids[n - 1];
        assert(slot_value(rec, slot_info(fid, descs).column()) == slot_value(
            rec,
            copy_slot(fid, descs),
        ));
    }
}

/// A row is the same in a delta as in a load of the whole table, whatever format it was
/// written in: deltas go on where a load left off.
pub proof fn law_delta_row_is_load_row(
    c: TableCache,
    img: Image,
    table: Seq<char>,
    pk_fields: Seq<Seq<char>>,
    snapshot: Option<Map<u32, Vec<u8>>>,
    rec: Seq<u8>,
    fmt: u8,
)
    requires
        cache_shows(c, img, table, pk_fields, snapshot),
        img.format(c.relation_id, fmt as u16) is Some,
    ensures
        ({
            let cols = (img.layout(table)->0->Ok_0).2;
            let fids = cols.map_values(|x: (usize, Seq<char>)| x.0);
            let slots = img.format_slots(c.relation_id, fids, fmt)->0;
            row_bytes(rec, c.columns(fmt), c.n_fields) == row_bytes(
                rec,
                slots,
                count16(cols.len() as int),
            )
        }),
{
    let (rid, latest, cols) = img.layout(table)->0->Ok_0;
    let fids = cols.map_values(|x: (usize, Seq<char>)| x.0);
    let descs = match img.format(rid, fmt as u16)->0 {
        Ok(d) => d,
        Err(_) => latest,
    };
    let slots = img.format_slots(rid, fids, fmt)->0;
    assert(slots == copy_slots_of(fids, descs));
    assert(c.slots_in(fmt) == column_infos(cols, descs));
    assert(c.columns(fmt) =~= fids.map_values(|fid: usize| slot_info(fid, descs).column()));
    lemma_same_columns_bytes(rec, fids, descs, fids.len() as int);
}

} // verus!
