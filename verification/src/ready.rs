//! Whether the changes of a table can be read: a database that is written to while it is read
//! may show pages that do not fit together.
use crate::bytes::{get_u16, get_u32};
use crate::cdc::{
    back_version, delete_row, key_of, page_changed, page_rebuilt, scan_visits, upsert_row, visit,
    visit_of, SlotInfo, TableCache, MAX_CHAIN_DEPTH,
};
use crate::extract::{row_ok, slot_fits_record, slot_ok};
use crate::ods::{
    page_scan, read_slot, record_transaction, slot_count, slot_listed, unpack_record_cdc, Image,
    OdsReader, PAG_DATA, RHD_CHAIN, RHD_DELETED,
};
use crate::sync::{
    cache_shows, current_pp, new_cache, pages_show, refreshable, refreshed_to,
    scannable, snapshot_view, starts_with, syncable,
};
use crate::text::texts;
use std::collections::HashMap;
use vstd::prelude::*;

verus! {

// ── Caches that lead to the same scan ────────────────────────────────────────

/// Whether two caches agree in all that a scan of given pages depends on.
pub open spec fn agree(c: TableCache, d: TableCache) -> bool {
    &&& c.pk_indices@ == d.pk_indices@
    &&& c.n_fields == d.n_fields
    &&& c.n_pk == d.n_pk
    &&& c.pk_tracked == d.pk_tracked
    &&& c.pk_byte_len == d.pk_byte_len
    &&& c.first_cycle() == d.first_cycle()
    &&& forall|fmt: u8|
        #![trigger c.slots_in(fmt)]
        #![trigger d.slots_in(fmt)]
        c.slots_in(fmt) == d.slots_in(fmt)
}

proof fn lemma_agree_visit(
    img: Image,
    c: TableCache,
    d: TableCache,
    last_txn: u64,
    changed: bool,
    rebuild: bool,
    raw: Seq<u8>,
)
    requires
        agree(c, d),
    ensures
        visit(img, c, last_txn, changed, rebuild, raw) == visit(
            img,
            d,
            last_txn,
            changed,
            rebuild,
            raw,
        ),
{
    assert forall|fmt: u8| #[trigger] c.key_columns(fmt) == d.key_columns(fmt) by {
        assert(c.slots_in(fmt) == d.slots_in(fmt));
        assert(c.key_columns(fmt) =~= d.key_columns(fmt));
    }
    assert forall|fmt: u8| #[trigger] c.columns(fmt) == d.columns(fmt) by {
        assert(c.slots_in(fmt) == d.slots_in(fmt));
    }
    assert(key_of(c, raw) == key_of(d, raw));
    assert(upsert_row(c, raw) == upsert_row(d, raw));
    assert(delete_row(img, c, raw) == delete_row(img, d, raw));
}

/// A scan finds the same with caches that agree.
pub proof fn lemma_agree(
    img: Image,
    c: TableCache,
    d: TableCache,
    last_txn: u64,
    gens: Map<u32, u32>,
    dps: Seq<u32>,
)
    requires
        agree(c, d),
    ensures
        scan_visits(img, c, last_txn, gens, dps) == scan_visits(img, d, last_txn, gens, dps),
    decreases dps.len(),
{
    if dps.len() > 0 {
        let n = dps[0];
        let changed = page_changed(img, gens, n);
        let rebuild = page_rebuilt(img, c, gens, n);
        let f = visit_of(img, c, last_txn, changed, rebuild);
        let g = visit_of(img, d, last_txn, changed, rebuild);
        assert forall|raw: Seq<u8>| #[trigger] f(raw) == g(raw) by {
            lemma_agree_visit(img, c, d, last_txn, changed, rebuild, raw);
        }
        assert(f =~= g);
        lemma_agree(img, c, d, last_txn, gens, dps.skip(1));
    }
}

// ── Records ──────────────────────────────────────────────────────────────────

/// Whether a row can be encoded.
fn columns_fit(rec: &[u8], c: &TableCache, fmt: u8) -> (r: bool)
    ensures
        r == row_ok(rec@, c.columns(fmt)),
{
    let slots: &[SlotInfo] = c.slots_for(fmt);
    let ghost cols = c.columns(fmt);
    let mut i: usize = 0;
    while i < slots.len()
        invariant
            i <= slots@.len(),
            slots@ == c.slots_in(fmt),
            cols == c.columns(fmt),
            forall|k: int| 0 <= k < i ==> slot_ok(rec@, #[trigger] cols[k]),
        decreases slots@.len() - i,
    {
        assert(cols[i as int] == slots@[i as int].column());
        if !column_fits(rec, &slots[i]) {
            return false;
        }
        i = i + 1;
    }
    true
}

/// Whether a column can be encoded.
fn column_fits(rec: &[u8], slot: &SlotInfo) -> (r: bool)
    ensures
        r == slot_ok(rec@, slot.column()),
{
    slot_fits_record(rec, slot.null_byte, slot.null_mask, &slot.desc)
}

/// Whether a key can be encoded.
fn key_fits(rec: &[u8], c: &TableCache, fmt: u8) -> (r: bool)
    requires
        c.wf(),
        c.pk_tracked,
    ensures
        r == row_ok(rec@, c.key_columns(fmt)),
{
    let slots: &[SlotInfo] = c.slots_for(fmt);
    let ghost cols = c.key_columns(fmt);
    let mut i: usize = 0;
    while i < c.pk_indices.len()
        invariant
            i <= c.pk_indices@.len(),
            c.wf(),
            c.pk_tracked,
            slots@ == c.slots_in(fmt),
            cols == c.key_columns(fmt),
            forall|k: int| 0 <= k < i ==> slot_ok(rec@, #[trigger] cols[k]),
        decreases c.pk_indices@.len() - i,
    {
        assert(c.pk_indices@[i as int] is Some);
        if let Some(pi) = c.pk_indices[i] {
            assert(c.slots_in(fmt).len() > c.pk_indices@[i as int]->0);
            assert(cols[i as int] == slots@[pi as int].column());
            if !column_fits(rec, &slots[pi]) {
                return false;
            }
        }
        i = i + 1;
    }
    true
}

/// Whether the key of a deleted record can be found and encoded.
fn back_version_fits(db: &OdsReader, c: &TableCache, page: u32, line: u16) -> (r: bool)
    requires
        db.wf(),
        c.wf(),
        c.pk_tracked,
    ensures
        r == match back_version(db@, page as int, line as int, MAX_CHAIN_DEPTH as nat) {
            None => false,
            Some(None) => true,
            Some(Some((rec, fmt))) => row_ok(rec, c.key_columns(fmt)),
        },
{
    let mut buf: Vec<u8> = Vec::new();
    let mut chain_page: u32 = page;
    let mut chain_line: u16 = line;
    let mut left: usize = MAX_CHAIN_DEPTH;
    let ghost want = back_version(db@, page as int, line as int, MAX_CHAIN_DEPTH as nat);
    while left > 0
        invariant
            db.wf(),
            c.wf(),
            c.pk_tracked,
            want == back_version(db@, page as int, line as int, MAX_CHAIN_DEPTH as nat),
            want == back_version(db@, chain_page as int, chain_line as int, left as nat),
        decreases left,
    {
        if !db.slot_fits(chain_page, chain_line as usize) {
            return false;
        }
        let back: &[u8] = match db.read_slot_raw(chain_page, chain_line as usize) {
            None => {
                return true;
            },
            Some(back) => back,
        };
        if unpack_record_cdc(back, &mut buf).is_some() {
            return key_fits(buf.as_slice(), c, back[12]);
        }
        if back.len() < 13 {
            return true;
        }
        let flags: u16 = get_u16(back, 10);
        if flags & (RHD_CHAIN | RHD_DELETED) == 0 {
            return true;
        }
        chain_page = get_u32(back, 4);
        chain_line = get_u16(back, 8);
        left = left - 1;
    }
    true
}

/// Whether what a record tells can be read and encoded.
fn visit_fits(
    db: &OdsReader,
    c: &TableCache,
    last_txn: u64,
    changed: bool,
    rebuild: bool,
    raw: &[u8],
    buf: &mut Vec<u8>,
) -> (r: bool)
    requires
        db.wf(),
        c.wf(),
        rebuild ==> c.pk_byte_len > 0,
    ensures
        r == (visit(db@, *c, last_txn, changed, rebuild, raw@) is Some),
{
    if raw.len() < 13 {
        return true;
    }
    let flags: u16 = get_u16(raw, 10);
    let deleted: bool = flags & RHD_DELETED != 0;
    if !changed && !rebuild && !deleted {
        return true;
    }
    let txn: u64 = match record_transaction(raw) {
        Some(txn) => txn,
        None => {
            return true;
        },
    };
    let want_key: bool = rebuild && !deleted && flags & RHD_CHAIN == 0;
    let is_new: bool = txn > last_txn;
    if !want_key && !is_new {
        return true;
    }
    if unpack_record_cdc(raw, buf).is_none() {
        return true;
    }
    let rec: &[u8] = buf.as_slice();
    if want_key && !key_fits(rec, c, raw[12]) {
        return false;
    }
    if is_new && deleted {
        let b_page: u32 = get_u32(raw, 4);
        return !c.pk_tracked || b_page == 0 || back_version_fits(db, c, b_page, get_u16(raw, 8));
    }
    !is_new || !changed || columns_fit(rec, c, raw[12])
}

// ── Pages ────────────────────────────────────────────────────────────────────

/// Whether what a page tells can be read and encoded.
fn page_fits(
    db: &OdsReader,
    c: &TableCache,
    last_txn: u64,
    changed: bool,
    rebuild: bool,
    p: &[u8],
) -> (r: bool)
    requires
        db.wf(),
        c.wf(),
        p@.len() == db@.page_size,
        rebuild ==> c.pk_byte_len > 0,
    ensures
        r == (page_scan(p@, 0, slot_count(p@)).collect(
            visit_of(db@, *c, last_txn, changed, rebuild),
        ) is Some),
{
    let cnt: usize = get_u16(p, 22) as usize;
    let ghost f = visit_of(db@, *c, last_txn, changed, rebuild);
    let ghost all = page_scan(p@, 0, cnt as int).collect(f);
    let mut buf: Vec<u8> = Vec::new();
    let mut s: usize = 0;
    while s < cnt
        invariant
            s <= cnt <= 0xffff,
            cnt == slot_count(p@),
            db.wf(),
            c.wf(),
            p@.len() == db@.page_size,
            rebuild ==> c.pk_byte_len > 0,
            f == visit_of(db@, *c, last_txn, changed, rebuild),
            all == page_scan(p@, 0, cnt as int).collect(f),
            all is Some == (page_scan(p@, s as int, cnt as int).collect(f) is Some),
        decreases cnt - s,
    {
        let ghost sc = page_scan(p@, s as int, cnt as int);
        if 28 + 4 * s > p.len() {
            return false;
        }
        assert(slot_listed(p@, s as int));
        if let Some(raw) = read_slot(p, s) {
            proof {
                assert(sc.recs[0] == raw@);
                assert(sc.rest() =~= page_scan(p@, s + 1, cnt as int));
            }
            if !visit_fits(db, c, last_txn, changed, rebuild, raw, &mut buf) {
                assert(f(raw@) is None);
                return false;
            }
            assert(f(raw@) is Some);
        }
        s = s + 1;
    }
    true
}

/// Whether what the pages of a table tell can be read and encoded.
pub fn scan_fits(
    db: &OdsReader,
    c: &TableCache,
    last_txn: u64,
    page_gens: &HashMap<u32, u32>,
    dps: &Vec<u32>,
) -> (r: bool)
    requires
        db.wf(),
        c.wf(),
    ensures
        r == (scan_visits(db@, *c, last_txn, page_gens@, dps@) is Some),
{
    broadcast use vstd::std_specs::hash::group_hash_axioms;

    let first_cycle: bool = c.pk_byte_len > 0 && c.prev_pks_per_page.is_empty();
    let ghost gens = page_gens@;
    let ghost all = scan_visits(db@, *c, last_txn, gens, dps@);
    let mut i: usize = 0;
    assert(dps@.skip(0) =~= dps@);
    while i < dps.len()
        invariant
            i <= dps@.len(),
            db.wf(),
            c.wf(),
            gens == page_gens@,
            first_cycle == c.first_cycle(),
            all == scan_visits(db@, *c, last_txn, gens, dps@),
            all is Some == (scan_visits(db@, *c, last_txn, gens, dps@.skip(i as int)) is Some),
        decreases dps@.len() - i,
    {
        let n: u32 = dps[i];
        proof {
            assert(dps@.skip(i as int)[0] == n);
            assert(dps@.skip(i as int).skip(1) =~= dps@.skip(i + 1));
        }
        if !db.contains_page(n) {
            return false;
        }
        let p: &[u8] = db.page(n);
        if p[0] == PAG_DATA {
            let gen: u32 = get_u32(p, 4);
            let changed: bool = match page_gens.get(&n) {
                Some(g) => *g != gen,
                None => true,
            };
            let rebuild: bool = c.pk_byte_len > 0 && (changed || first_cycle);
            if !page_fits(db, c, last_txn, changed, rebuild, p) {
                return false;
            }
        }
        i = i + 1;
    }
    true
}

// ── Tables ───────────────────────────────────────────────────────────────────

/// Whether a cycle that starts with the cache `c` can read everything that it needs.
pub open spec fn cycle_readable(
    img: Image,
    c: TableCache,
    last_txn: u64,
    gens: Map<u32, u32>,
) -> bool {
    &&& refreshable(img, c)
    &&& forall|d: TableCache|
        #![trigger refreshed_to(c, d, img)]
        current_pp(img, c) is Some && refreshed_to(c, d, img) ==> scannable(img, d, last_txn, gens)
}

/// Whether a cycle that starts with the cache `c` can read everything that it needs.
fn cycle_fits(
    db: &OdsReader,
    c: &TableCache,
    last_txn: u64,
    page_gens: &HashMap<u32, u32>,
) -> (r: bool)
    requires
        db.wf(),
        c.wf(),
    ensures
        r == cycle_readable(db@, *c, last_txn, page_gens@),
{
    let pp: u32 = match c.first_pp {
        Some(pp) => pp,
        None => match db.try_first_pp(c.relation_id) {
            Some(Some(pp)) => pp,
            Some(None) => {
                return true;
            },
            None => {
                return false;
            },
        },
    };
    if !db.contains_page(pp) {
        return false;
    }
    let gen: u32 = get_u32(db.page(pp), 4);
    if c.first_pp.is_some() && gen == c.pp_gen {
        assert(forall|d: TableCache| #[trigger] refreshed_to(*c, d, db@) ==> d == *c);
        assert(refreshed_to(*c, *c, db@));
        return c.data_pages.len() as u64 <= 0xffff_ffff && scan_fits(
            db,
            c,
            last_txn,
            page_gens,
            &c.data_pages,
        );
    }
    match db.try_data_pages(pp) {
        None => false,
        Some(dps) => {
            let fits: bool = dps.len() as u64 <= 0xffff_ffff && scan_fits(
                db,
                c,
                last_txn,
                page_gens,
                &dps,
            );
            proof {
                assert forall|d: TableCache| #[trigger] refreshed_to(*c, d, db@) implies fits
                    == scannable(db@, d, last_txn, page_gens@) by {
                    assert(d.data_pages@ == dps@);
                    assert(agree(*c, d));
                    lemma_agree(db@, *c, d, last_txn, page_gens@, dps@);
                }
                let d = TableCache { first_pp: Some(pp), pp_gen: gen, data_pages: dps, ..*c };
                assert(refreshed_to(*c, d, db@));
            }
            fits
        },
    }
}

/// Two new caches of a table agree, and have the same pages, if either both have keys or
/// neither.
proof fn lemma_new_caches_agree(
    img: Image,
    table: Seq<char>,
    pks: Seq<Seq<char>>,
    b: TableCache,
    c: TableCache,
    snap_b: Option<Map<u32, Vec<u8>>>,
    snap_c: Option<Map<u32, Vec<u8>>>,
)
    requires
        cache_shows(b, img, table, pks, snap_b),
        cache_shows(c, img, table, pks, snap_c),
        (snap_b is Some && !snap_b->0.is_empty()) == (snap_c is Some && !snap_c->0.is_empty()),
    ensures
        agree(b, c),
        b.relation_id == c.relation_id,
        b.first_pp == c.first_pp,
        b.pp_gen == c.pp_gen,
        b.data_pages@ == c.data_pages@,
{
    let (rid, descs, cols) = img.layout(table)->0->Ok_0;
    assert forall|fmt: u8|
        #![trigger b.slots_in(fmt)]
        #![trigger c.slots_in(fmt)]
        b.slots_in(fmt) == c.slots_in(fmt) by {
        let v = fmt as u16;
        assert(v < 256);
        let f = img.format(rid, v);
        assert(b.fmt_slots@[v as int] is Some == (c.fmt_slots@[v as int] is Some));
    }
    assert(b.pk_tracked == c.pk_tracked);
}

/// Whether a cycle can start without a cache shows in any new cache of the table, if it has
/// keys like the one that the cycle starts with.
proof fn lemma_new_cache_readable(
    img: Image,
    table: Seq<char>,
    pks: Seq<Seq<char>>,
    b: TableCache,
    snap_b: Option<Map<u32, Vec<u8>>>,
    snapshot: Option<HashMap<u32, Vec<u8>>>,
    last_txn: u64,
    gens: Map<u32, u32>,
)
    requires
        img.cacheable(table),
        b.wf(),
        cache_shows(b, img, table, pks, snap_b),
        snap_b is Some,
        snap_b->0.is_empty() == (snapshot is None || snapshot->0@.is_empty()),
    ensures
        syncable(img, table, pks, None, snapshot_view(snapshot), last_txn, gens) == cycle_readable(
            img,
            b,
            last_txn,
            gens,
        ),
{
    let snap = snapshot_view(snapshot);
    let fits = cycle_readable(img, b, last_txn, gens);
    assert forall|c: TableCache| #[trigger]
        starts_with(c, img, table, pks, None, snap) implies cycle_readable(img, c, last_txn, gens)
        == fits by {
        lemma_new_caches_agree(img, table, pks, b, c, snap_b, snap);
        lemma_agree(img, b, c, last_txn, gens, b.data_pages@);
        assert(refreshed_to(b, b, img));
        assert(refreshed_to(c, c, img));
    }
    if fits {
        assert forall|c: TableCache|
            #![trigger refreshable(img, c)]
            starts_with(c, img, table, pks, None, snap) implies refreshable(img, c) by {
            assert(cycle_readable(img, c, last_txn, gens));
        }
        assert forall|c: TableCache, d: TableCache|
            #![trigger refreshed_to(c, d, img)]
            starts_with(c, img, table, pks, None, snap) && current_pp(img, c) is Some
                && refreshed_to(c, d, img) implies scannable(img, d, last_txn, gens) by {
            assert(cycle_readable(img, c, last_txn, gens));
        }
    } else if syncable(img, table, pks, None, snap, last_txn, gens) {
        let c0 = TableCache {
            prev_pks_per_page: if snap is Some && b.pk_byte_len > 0 {
                snapshot->0
            } else {
                b.prev_pks_per_page
            },
            ..b
        };
        assert(forall|fmt: u8| #[trigger] c0.slots_in(fmt) == b.slots_in(fmt));
        assert(c0.wf());
        assert(c0.prev_pks_per_page@ =~= (if snap is Some && c0.pk_byte_len > 0 {
            snap->0
        } else {
            Map::empty()
        }));
        assert(pages_show(c0, img, c0.first_pp));
        assert(cache_shows(c0, img, table, pks, snap));
        assert(starts_with(c0, img, table, pks, None, snap));
        assert(cycle_readable(img, c0, last_txn, gens));
    }
}

/// Whether every format of a table can be read.
fn all_formats_fit(db: &OdsReader, rid: u16) -> (r: bool)
    requires
        db.wf(),
    ensures
        r == (forall|v: u16| v < 256 ==> (#[trigger] db@.format(rid, v)) is Some),
{
    let mut v: u16 = 0;
    while v < 256
        invariant
            v <= 256,
            db.wf(),
            forall|k: u16| k < v ==> (#[trigger] db@.format(rid, k)) is Some,
        decreases 256 - v,
    {
        if !db.format_fits(rid, v) {
            assert(db@.format(rid, v) is None);
            return false;
        }
        v = v + 1;
    }
    true
}

/// Whether everything that the cache of a table holds can be read.
pub fn cache_fits(db: &OdsReader, table: &str) -> (r: bool)
    requires
        db.wf(),
    ensures
        r == db@.cacheable(table@),
{
    if !db.layout_fits(table) {
        return false;
    }
    let rid: u16 = match db.find_relation_id(table) {
        Ok(rid) => rid,
        Err(_) => {
            return true;
        },
    };
    if db.read_format(rid, u16::MAX).is_err() {
        return true;
    }
    if !all_formats_fit(db, rid) {
        return false;
    }
    match db.try_first_pp(rid) {
        None => {
            return false;
        },
        Some(None) => {},
        Some(Some(pp)) => {
            if !db.contains_page(pp) || db.try_data_pages(pp).is_none() {
                return false;
            }
        },
    }
    true
}

/// The contents of saved keys.
pub open spec fn keys_view(s: Option<&HashMap<u32, Vec<u8>>>) -> Option<Map<u32, Vec<u8>>> {
    match s {
        Some(m) => Some(m@),
        None => None,
    }
}

/// Whether a cycle that starts without a cache can read everything that it needs of a table.
fn is_cacheable(
    db: &OdsReader,
    table: &str,
    pk_fields: &[String],
    snapshot: Option<&HashMap<u32, Vec<u8>>>,
    last_txn: u64,
    page_gens: &HashMap<u32, u32>,
) -> (r: bool)
    requires
        db.wf(),
        12 * pk_fields@.len() <= usize::MAX,
    ensures
        r == syncable(
            db@,
            table@,
            texts(pk_fields@),
            None,
            keys_view(snapshot),
            last_txn,
            page_gens@,
        ),
{
    broadcast use vstd::std_specs::hash::group_hash_axioms;

    if !cache_fits(db, table) {
        return false;
    }
    let known: bool = match snapshot {
        Some(m) => !m.is_empty(),
        None => false,
    };
    let mut keys: HashMap<u32, Vec<u8>> = HashMap::new();
    if known {
        keys.insert(0, Vec::new());
        assert(keys@.contains_key(0));
    }
    let ghost snap_b = Some(keys@);
    match new_cache(db, table, pk_fields, Some(keys)) {
        Ok(b) => {
            proof {
                lemma_new_cache_readable(
                    db@,
                    table@,
                    texts(pk_fields@),
                    b,
                    snap_b,
                    match snapshot {
                        Some(m) => Some(*m),
                        None => None,
                    },
                    last_txn,
                    page_gens@,
                );
            }
            cycle_fits(db, &b, last_txn, page_gens)
        },
        Err(_) => true,
    }
}

/// Whether a cycle can read everything that it needs of a table.
pub fn is_syncable(
    db: &OdsReader,
    table: &str,
    pk_fields: &[String],
    cache: &Option<TableCache>,
    snapshot: Option<&HashMap<u32, Vec<u8>>>,
    last_txn: u64,
    page_gens: &HashMap<u32, u32>,
) -> (r: bool)
    requires
        db.wf(),
        12 * pk_fields@.len() <= usize::MAX,
        cache is Some ==> cache->0.wf(),
    ensures
        r == syncable(
            db@,
            table@,
            texts(pk_fields@),
            *cache,
            keys_view(snapshot),
            last_txn,
            page_gens@,
        ),
{
    match cache {
        Some(c) => {
            let fits: bool = cycle_fits(db, c, last_txn, page_gens);
            proof {
                let pks = texts(pk_fields@);
                let snap = keys_view(snapshot);
                assert(starts_with(*c, db@, table@, pks, *cache, snap));
                if syncable(db@, table@, pks, *cache, snap, last_txn, page_gens@) {
                    assert(cycle_readable(db@, *c, last_txn, page_gens@));
                }
            }
            fits
        },
        None => is_cacheable(db, table, pk_fields, snapshot, last_txn, page_gens),
    }
}

} // verus!
