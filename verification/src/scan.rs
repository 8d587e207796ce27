//! The scan of a table for changes.
use crate::bytes::{append, be16, get_u16, get_u32, push_be16, push_be32};
use crate::cdc::{
    alive_keys, any_version, are_vanished, back_version, changed_gens, data_page_count, delete_row,
    former_keys, found, holds_keys, holds_page_keys, is_data_page, joined_flats, joined_others,
    key_of, key_rows, key_stride, law_key_has_its_stride, may_vanish, page_changed, page_gen, page_rebuilt, page_visits, scan_visits,
    unchanged_count, upsert_row, vanished, visit, visit_of, visited_keys, Found, SlotInfo,
    TableCache, Visit, MAX_CHAIN_DEPTH,
};
use crate::clock::{elapsed_ns, start_timer};
use crate::extract::{
    columns_bytes, concat, copy_header, copy_trailer, framed, null_flags_of, push_copy_header,
    push_copy_trailer, row_bytes, row_ok, slot_ok, slot_value, write_field_binary,
};
use crate::flatpk::{entries, entry, flat_pk_contains, flat_pk_sort_dedup, in_order, same_members};
use crate::maps::{is_walk, keys_of, lemma_take_contains};
use crate::ods::{
    behind, flagged, lemma_collect_step, page_scan, read_slot, record_transaction, slot, slot_count,
    slot_listed, transaction, unpack_record_cdc, Image, OdsReader, PAG_DATA, RHD_CHAIN, RHD_DELETED,
};
use std::collections::HashMap;
use vstd::hash_map::StringHashMap;
use vstd::prelude::*;
use vstd::slice::slice_subrange;

verus! {

/// What a scan hands back. The rows that were inserted or updated are written to the
/// caller's buffer.
pub struct ScanOutput {
    pub delete_buf: Vec<u8>,
    pub upserts: u64,
    pub deletes: u64,
    pub max_txn: u64,
    pub new_gens: HashMap<u32, u32>,
    pub new_pks_per_page: HashMap<u32, Vec<u8>>,
    pub pages_total: u32,
    pub pages_skipped: u32,
    pub records_checked: u64,
    pub express_deletes: u64,
    /// Time spent on sorting the keys of the pages.
    pub sort_page_ns: u64,
    /// Time spent on sorting all keys that are alive.
    pub sort_alive_ns: u64,
    /// Time spent on looking for rows that vanished.
    pub express_ns: u64,
}

// ── Encoding ─────────────────────────────────────────────────────────────────

/// Appends one column of a record.
fn write_column(rec: &[u8], slot: &SlotInfo, out: &mut Vec<u8>, text_buf: &mut Vec<u8>)
    requires
        slot_ok(rec@, slot.column()),
    ensures
        final(out)@ == old(out)@ + framed(slot_value(rec@, slot.column())),
{
    if null_flags_of(rec, slot.null_byte) & slot.null_mask != 0 {
        push_be32(out, -1);
    } else {
        write_field_binary(rec, &slot.desc, out, text_buf);
    }
}

/// Appends the row of a record.
fn write_record(
    rec: &[u8],
    c: &TableCache,
    fmt: u8,
    out: &mut Vec<u8>,
    text_buf: &mut Vec<u8>,
)
    requires
        row_ok(rec@, c.columns(fmt)),
    ensures
        final(out)@ == old(out)@ + row_bytes(rec@, c.columns(fmt), c.n_fields),
{
    push_be16(out, c.n_fields);
    let slots: &[SlotInfo] = c.slots_for(fmt);
    let ghost cols = c.columns(fmt);
    let ghost base = out@;
    let mut i: usize = 0;
    while i < slots.len()
        invariant
            i <= slots@.len(),
            slots@ == c.slots_in(fmt),
            cols == c.columns(fmt),
            row_ok(rec@, cols),
            out@ == base + columns_bytes(rec@, cols, i as int),
        decreases slots@.len() - i,
    {
        assert(cols[i as int] == slots@[i as int].column());
        assert(slot_ok(rec@, cols[i as int]));
        write_column(rec, &slots[i], out, text_buf);
        assert(out@ =~= base + columns_bytes(rec@, cols, i + 1));
        i = i + 1;
    }
    assert(out@ =~= old(out)@ + row_bytes(rec@, cols, c.n_fields));
}

/// Appends the key of a record.
fn write_key(rec: &[u8], c: &TableCache, fmt: u8, out: &mut Vec<u8>, text_buf: &mut Vec<u8>)
    requires
        c.wf(),
        c.pk_tracked,
        row_ok(rec@, c.key_columns(fmt)),
    ensures
        final(out)@ == old(out)@ + c.key_bytes(rec@, fmt),
{
    let slots: &[SlotInfo] = c.slots_for(fmt);
    let ghost cols = c.key_columns(fmt);
    assert(out@ =~= old(out)@ + columns_bytes(rec@, cols, 0));
    let mut i: usize = 0;
    while i < c.pk_indices.len()
        invariant
            i <= c.pk_indices@.len(),
            c.wf(),
            c.pk_tracked,
            slots@ == c.slots_in(fmt),
            cols == c.key_columns(fmt),
            row_ok(rec@, cols),
            out@ == old(out)@ + columns_bytes(rec@, cols, i as int),
        decreases c.pk_indices@.len() - i,
    {
        assert(c.pk_indices@[i as int] is Some);
        if let Some(pi) = c.pk_indices[i] {
            assert(c.slots_in(fmt).len() > c.pk_indices@[i as int]->0);
            assert(cols[i as int] == slots@[pi as int].column());
            assert(slot_ok(rec@, cols[i as int]));
            write_column(rec, &slots[pi], out, text_buf);
            assert(out@ =~= old(out)@ + columns_bytes(rec@, cols, i + 1));
        }
        i = i + 1;
    }
}

/// Encodes the key of a record into `out`, whose former contents are dropped. It has the length
/// that is announced for it, unless a column of it is NULL.
pub fn encode_pk_pgcopy(
    rec: &[u8],
    c: &TableCache,
    fmt: u8,
    out: &mut Vec<u8>,
    text_buf: &mut Vec<u8>,
)
    requires
        c.wf(),
        c.pk_tracked,
        row_ok(rec@, c.key_columns(fmt)),
    ensures
        final(out)@ == c.key_bytes(rec@, fmt),
        key_stride(c.pk_indices@, c.slots_in(fmt)) > 0 && (forall|i: int|
            0 <= i < c.pk_indices@.len() ==> slot_value(
                rec@,
                #[trigger] c.key_columns(fmt)[i],
            ) is Some) ==> final(out)@.len() == key_stride(c.pk_indices@, c.slots_in(fmt)),
{
    out.clear();
    write_key(rec, c, fmt, out, text_buf);
    assert(out@ =~= c.key_bytes(rec@, fmt));
    proof {
        if key_stride(c.pk_indices@, c.slots_in(fmt)) > 0 && (forall|i: int|
            0 <= i < c.pk_indices@.len() ==> slot_value(
                rec@,
                #[trigger] c.key_columns(fmt)[i],
            ) is Some) {
            law_key_has_its_stride(*c, rec@, fmt);
        }
    }
}

// ── The state of a scan ──────────────────────────────────────────────────────

struct ScanState {
    upsert: Vec<u8>,
    delete: Vec<u8>,
    upserts: u64,
    deletes: u64,
    max_txn: u64,
    checked: u64,
    page_keys: Vec<u8>,
    rec_buf: Vec<u8>,
    text_buf: Vec<u8>,
    pk_tmp: Vec<u8>,
}

impl ScanState {
    /// Whether the state holds `f`, behind what the buffers held before.
    spec fn shows(self, f: Found, upsert_base: Seq<u8>, delete_base: Seq<u8>) -> bool {
        &&& self.upsert@ == upsert_base + concat(f.upserts)
        &&& self.upserts == f.upserts.len()
        &&& 2 * self.upserts <= self.upsert@.len()
        &&& self.delete@ == delete_base + concat(f.deletes)
        &&& self.deletes == f.deletes.len()
        &&& 2 * self.deletes <= self.delete@.len()
        &&& self.max_txn == f.max_txn
        &&& self.checked == f.checked
    }

    /// Unpacks the record of any version into the buffer.
    fn load(&mut self, raw: &[u8]) -> (r: Option<bool>)
        ensures
            match r {
                Some(deleted) => {
                    &&& any_version(raw@) == Some(final(self).rec_buf@)
                    &&& deleted == flagged(raw@, RHD_DELETED)
                },
                None => any_version(raw@) is None,
            },
            final(self).upsert == old(self).upsert,
            final(self).delete == old(self).delete,
            final(self).upserts == old(self).upserts,
            final(self).deletes == old(self).deletes,
            final(self).max_txn == old(self).max_txn,
            final(self).checked == old(self).checked,
            final(self).page_keys == old(self).page_keys,
    {
        unpack_record_cdc(raw, &mut self.rec_buf)
    }

    /// Follows the chain of old versions and unpacks the first one that can be read.
    /// Returns its format.
    fn load_back_version(&mut self, db: &OdsReader, page: u32, line: u16) -> (r: Option<u8>)
        requires
            db.wf(),
            back_version(db@, page as int, line as int, MAX_CHAIN_DEPTH as nat) is Some,
        ensures
            back_version(db@, page as int, line as int, MAX_CHAIN_DEPTH as nat) == Some(
                match r {
                    Some(fmt) => Some((final(self).rec_buf@, fmt)),
                    None => None,
                },
            ),
            final(self).upsert == old(self).upsert,
            final(self).delete == old(self).delete,
            final(self).upserts == old(self).upserts,
            final(self).deletes == old(self).deletes,
            final(self).max_txn == old(self).max_txn,
            final(self).checked == old(self).checked,
            final(self).page_keys == old(self).page_keys,
    {
        let mut chain_page: u32 = page;
        let mut chain_line: u16 = line;
        let mut left: usize = MAX_CHAIN_DEPTH;
        let ghost want = back_version(db@, page as int, line as int, MAX_CHAIN_DEPTH as nat);
        while left > 0
            invariant
                db.wf(),
                want is Some,
                want == back_version(db@, page as int, line as int, MAX_CHAIN_DEPTH as nat),
                want == back_version(db@, chain_page as int, chain_line as int, left as nat),
                self.upsert == old(self).upsert,
                self.delete == old(self).delete,
                self.upserts == old(self).upserts,
                self.deletes == old(self).deletes,
                self.max_txn == old(self).max_txn,
                self.checked == old(self).checked,
                self.page_keys == old(self).page_keys,
            decreases left,
        {
            let back: &[u8] = match db.read_slot_raw(chain_page, chain_line as usize) {
                None => {
                    return None;
                },
                Some(back) => back,
            };
            if self.load(back).is_some() {
                return Some(back[12]);
            }
            if back.len() < 13 {
                return None;
            }
            let flags: u16 = get_u16(back, 10);
            if flags & (RHD_CHAIN | RHD_DELETED) == 0 {
                return None;
            }
            chain_page = get_u32(back, 4);
            chain_line = get_u16(back, 8);
            left = left - 1;
        }
        None
    }

    /// Takes what a record tells.
    fn visit_record(
        &mut self,
        db: &OdsReader,
        c: &TableCache,
        last_txn: u64,
        changed: bool,
        rebuild: bool,
        raw: &[u8],
        Ghost(f): Ghost<Found>,
        Ghost(ub): Ghost<Seq<u8>>,
        Ghost(dbase): Ghost<Seq<u8>>,
    )
        requires
            db.wf(),
            c.wf(),
            rebuild ==> c.pk_byte_len > 0,
            old(self).shows(f, ub, dbase),
            old(self).checked < u64::MAX,
            visit(db@, *c, last_txn, changed, rebuild, raw@) is Some,
        ensures
            final(self).shows(
                f.with(visit(db@, *c, last_txn, changed, rebuild, raw@)->0),
                ub,
                dbase,
            ),
            final(self).checked <= old(self).checked + 1,
            final(self).page_keys@ == old(self).page_keys@ + (match visit(
                db@,
                *c,
                last_txn,
                changed,
                rebuild,
                raw@,
            )->0.key {
                Some(k) => k,
                None => Seq::empty(),
            }),
    {
        let ghost v = visit(db@, *c, last_txn, changed, rebuild, raw@)->0;
        proof {
            assert(self.page_keys@ + Seq::<u8>::empty() =~= self.page_keys@);
        }
        if raw.len() < 13 {
            return;
        }
        let flags: u16 = get_u16(raw, 10);
        let deleted: bool = flags & RHD_DELETED != 0;
        // On a quiet page only a deleted record can tell something new.
        if !changed && !rebuild && !deleted {
            return;
        }
        let txn: u64 = match record_transaction(raw) {
            Some(txn) => txn,
            None => {
                return;
            },
        };
        self.checked = self.checked + 1;
        let want_key: bool = rebuild && !deleted && flags & RHD_CHAIN == 0;
        let is_new: bool = txn > last_txn;
        if !want_key && !is_new {
            return;
        }
        // Both the key and the row come from the record, which is unpacked once.
        let unpacked: Option<bool> = self.load(raw);
        if want_key && unpacked.is_some() {
            assert(key_of(*c, raw@) is Some);
            encode_pk_pgcopy(
                self.rec_buf.as_slice(),
                c,
                raw[12],
                &mut self.pk_tmp,
                &mut self.text_buf,
            );
            if self.pk_tmp.len() == c.pk_byte_len {
                append(&mut self.page_keys, self.pk_tmp.as_slice());
            }
        }
        if !is_new {
            return;
        }
        if txn > self.max_txn {
            self.max_txn = txn;
        }
        if unpacked.is_none() {
            return;
        }
        if deleted {
            let chain_page: u32 = get_u32(raw, 4);
            if !c.pk_tracked || chain_page == 0 {
                return;
            }
            assert(delete_row(db@, *c, raw@) is Some);
            match self.load_back_version(db, chain_page, get_u16(raw, 8)) {
                None => {},
                Some(fmt) => {
                    let ghost before = self.delete@;
                    push_be16(&mut self.delete, c.n_pk);
                    write_key(
                        self.rec_buf.as_slice(),
                        c,
                        fmt,
                        &mut self.delete,
                        &mut self.text_buf,
                    );
                    proof {
                        let row = v.delete->0;
                        assert(self.delete@ =~= before + row);
                        assert(f.deletes.push(row).drop_last() =~= f.deletes);
                        assert(self.delete@ =~= dbase + concat(f.deletes.push(row)));
                        assert(self.delete.len() <= usize::MAX);
                    }
                    self.deletes = self.deletes + 1;
                },
            }
        } else if changed {
            assert(upsert_row(*c, raw@) is Some);
            let ghost before = self.upsert@;
            write_record(
                self.rec_buf.as_slice(),
                c,
                raw[12],
                &mut self.upsert,
                &mut self.text_buf,
            );
            proof {
                let row = v.upsert->0;
                assert(self.upsert@ =~= before + row);
                assert(f.upserts.push(row).drop_last() =~= f.upserts);
                assert(self.upsert@ =~= ub + concat(f.upserts.push(row)));
                assert(self.upsert.len() <= usize::MAX);
            }
            self.upserts = self.upserts + 1;
        }
    }
}

/// Every key that a page contributes has the length of a key.
proof fn lemma_visit_key_len(
    img: Image,
    c: TableCache,
    last_txn: u64,
    changed: bool,
    rebuild: bool,
    raw: Seq<u8>,
)
    ensures
        visit(img, c, last_txn, changed, rebuild, raw) matches Some(v) ==> (v.key is Some
            ==> v.key->0.len() == c.pk_byte_len),
{
}

/// The keys of equal length in a list are its entries.
proof fn lemma_concat_entries(keys: Seq<Seq<u8>>, stride: int)
    requires
        0 < stride,
        forall|i: int| 0 <= i < keys.len() ==> (#[trigger] keys[i]).len() == stride,
    ensures
        concat(keys).len() == stride * keys.len(),
        entries(concat(keys), stride) == keys,
    decreases keys.len(),
{
    if keys.len() == 0 {
        assert(stride * 0 == 0) by (nonlinear_arith);
        assert(0int / stride == 0) by (nonlinear_arith)
            requires
                0 < stride,
        ;
        assert(entries(concat(keys), stride) =~= keys);
    } else {
        let front = keys.drop_last();
        lemma_concat_entries(front, stride);
        let n = keys.len() as int;
        let all = concat(keys);
        assert(stride * n == stride * (n - 1) + stride) by (nonlinear_arith);
        assert(all.len() == stride * n);
        assert((stride * n) / stride == n) by (nonlinear_arith)
            requires
                0 < stride,
        ;
        assert((stride * (n - 1)) / stride == n - 1) by (nonlinear_arith)
            requires
                0 < stride,
        ;
        let e = entries(all, stride);
        assert(e.len() == n);
        assert forall|i: int| 0 <= i < n implies #[trigger] e[i] == keys[i] by {
            assert(0 <= i * stride) by (nonlinear_arith)
                requires
                    0 <= i,
                    0 < stride,
            ;
            assert(i * stride + stride == (i + 1) * stride) by (nonlinear_arith);
            if i < n - 1 {
                assert((i + 1) * stride <= stride * (n - 1)) by (nonlinear_arith)
                    requires
                        i + 1 <= n - 1,
                        0 < stride,
                ;
                assert(entry(all, stride, i) =~= entry(concat(front), stride, i));
                assert(entries(concat(front), stride)[i] == front[i]);
            } else {
                assert(i * stride == stride * (n - 1)) by (nonlinear_arith)
                    requires
                        i == n - 1,
                ;
                assert(entry(all, stride, i) =~= keys.last());
            }
        }
        assert(e =~= keys);
    }
}

proof fn lemma_visited_keys_len(visits: Seq<Visit>, stride: int)
    requires
        forall|i: int|
            0 <= i < visits.len() && (#[trigger] visits[i]).key is Some
                ==> visits[i].key->0.len() == stride,
    ensures
        forall|i: int|
            0 <= i < visited_keys(visits).len() ==> (#[trigger] visited_keys(visits)[i]).len()
                == stride,
    decreases visits.len(),
{
    if visits.len() > 0 {
        assert forall|i: int|
            0 <= i < visits.drop_last().len() && (#[trigger] visits.drop_last()[i]).key is Some
            implies visits.drop_last()[i].key->0.len() == stride by {
            assert(visits[i].key is Some);
        }
        lemma_visited_keys_len(visits.drop_last(), stride);
        let before = visited_keys(visits.drop_last());
        assert(visits[visits.len() - 1] == visits.last());
        assert forall|i: int| 0 <= i < visited_keys(visits).len() implies (
        #[trigger] visited_keys(visits)[i]).len() == stride by {
            if i < before.len() {
                assert(visited_keys(visits)[i] == before[i]);
            }
        }
    }
}

impl ScanState {
    /// Takes what the records of a page tell.
    fn scan_page(
        &mut self,
        db: &OdsReader,
        c: &TableCache,
        last_txn: u64,
        changed: bool,
        rebuild: bool,
        p: &[u8],
        Ghost(visits): Ghost<Seq<Visit>>,
        Ghost(ub): Ghost<Seq<u8>>,
        Ghost(dbase): Ghost<Seq<u8>>,
    )
        requires
            db.wf(),
            c.wf(),
            p@.len() == db@.page_size,
            rebuild ==> c.pk_byte_len > 0,
            old(self).shows(found(visits, last_txn), ub, dbase),
            old(self).checked <= u64::MAX - 0xffff,
            page_scan(p@, 0, slot_count(p@)).collect(
                visit_of(db@, *c, last_txn, changed, rebuild),
            ) is Some,
        ensures
            ({
                let pv = page_scan(p@, 0, slot_count(p@)).collect(
                    visit_of(db@, *c, last_txn, changed, rebuild),
                )->0;
                &&& final(self).shows(found(visits + pv, last_txn), ub, dbase)
                &&& final(self).page_keys@ == concat(visited_keys(pv))
                &&& forall|i: int|
                    0 <= i < visited_keys(pv).len() ==> (#[trigger] visited_keys(pv)[i]).len()
                        == c.pk_byte_len
            }),
            final(self).checked <= old(self).checked + 0xffff,
    {
        let cnt: usize = get_u16(p, 22) as usize;
        let ghost f = visit_of(db@, *c, last_txn, changed, rebuild);
        let ghost all = page_scan(p@, 0, cnt as int).collect(f);
        let ghost mut pv: Seq<Visit> = Seq::empty();
        self.page_keys.clear();
        proof {
            assert(visits + pv =~= visits);
            assert(pv + all->0 =~= all->0);
        }
        let mut s: usize = 0;
        while s < cnt
            invariant
                s <= cnt <= 0xffff,
                cnt == slot_count(p@),
                db.wf(),
                c.wf(),
                rebuild ==> c.pk_byte_len > 0,
                f == visit_of(db@, *c, last_txn, changed, rebuild),
                page_scan(p@, s as int, cnt as int).collect(f) is Some,
                all == behind(pv, page_scan(p@, s as int, cnt as int).collect(f)),
                self.shows(found(visits + pv, last_txn), ub, dbase),
                self.checked <= old(self).checked + s,
                old(self).checked <= u64::MAX - 0xffff,
                self.page_keys@ == concat(visited_keys(pv)),
                forall|i: int|
                    0 <= i < pv.len() && (#[trigger] pv[i]).key is Some ==> pv[i].key->0.len()
                        == c.pk_byte_len,
            decreases cnt - s,
        {
            let ghost sc = page_scan(p@, s as int, cnt as int);
            assert(slot_listed(p@, s as int));
            if let Some(raw) = read_slot(p, s) {
                let ghost v = visit(db@, *c, last_txn, changed, rebuild, raw@)->0;
                proof {
                    assert(sc.recs[0] == raw@);
                    assert(sc.rest() =~= page_scan(p@, s + 1, cnt as int));
                    lemma_collect_step(sc, f, pv);
                    assert(f(raw@) is Some);
                    lemma_visit_key_len(db@, *c, last_txn, changed, rebuild, raw@);
                }
                self.visit_record(
                    db,
                    c,
                    last_txn,
                    changed,
                    rebuild,
                    raw,
                    Ghost(found(visits + pv, last_txn)),
                    Ghost(ub),
                    Ghost(dbase),
                );
                proof {
                    let more = pv.push(v);
                    assert((visits + more).drop_last() =~= visits + pv);
                    assert((visits + more).last() == v);
                    assert(more.drop_last() =~= pv);
                    let keys = visited_keys(pv);
                    if v.key is Some {
                        assert(keys.push(v.key->0).drop_last() =~= keys);
                    }
                    assert(self.page_keys@ =~= concat(visited_keys(more)));
                    pv = more;
                }
            }
            s = s + 1;
        }
        proof {
            assert(pv + Seq::<Visit>::empty() =~= pv);
            lemma_visited_keys_len(pv, c.pk_byte_len as int);
        }
    }
}

// ── Rows that vanished ───────────────────────────────────────────────────────

/// A byte string as text, one character for each byte.
spec fn byte_text(k: Seq<u8>) -> Seq<char> {
    k.map_values(|b: u8| b as char)
}

proof fn lemma_byte_text_injective(a: Seq<u8>, b: Seq<u8>)
    requires
        byte_text(a) == byte_text(b),
    ensures
        a == b,
{
    assert(byte_text(a).len() == a.len() && byte_text(b).len() == b.len());
    assert forall|i: int| 0 <= i < a.len() implies a[i] == b[i] by {
        assert(byte_text(a)[i] == a[i] as char && byte_text(b)[i] == b[i] as char);
        assert((a[i] as char) as u8 == a[i] && (b[i] as char) as u8 == b[i]);
    }
    assert(a =~= b);
}

fn text_of_bytes(k: &[u8]) -> (r: String)
    ensures
        r@ == byte_text(k@),
{
    let mut out: String = String::new();
    let mut i: usize = 0;
    while i < k.len()
        invariant
            i <= k@.len(),
            out@ =~= byte_text(k@.take(i as int)),
        decreases k@.len() - i,
    {
        out.push(k[i] as char);
        assert(k@.take(i + 1) =~= k@.take(i as int).push(k@[i as int]));
        i = i + 1;
    }
    assert(k@.take(i as int) =~= k@);
    out
}

/// Collects the keys that are alive: those of the pages that were collected anew, and the
/// former ones of all other pages.
fn collect_alive(
    prev: &HashMap<u32, Vec<u8>>,
    now: &HashMap<u32, Vec<u8>>,
    Ghost(stride): Ghost<int>,
) -> (r: Vec<u8>)
    ensures
        exists|w_now: Seq<u32>, w_prev: Seq<u32>|
            {
                &&& is_walk(w_now, now@.dom())
                &&& is_walk(w_prev, prev@.dom())
                &&& entries(r@, stride) == #[trigger] alive_keys(
                    prev@,
                    now@,
                    w_prev,
                    w_now,
                    stride,
                )
            },
{
    broadcast use vstd::std_specs::hash::group_hash_axioms;

    let mut alive: Vec<u8> = Vec::new();
    let w_now: Vec<u32> = keys_of(now);
    let mut i: usize = 0;
    while i < w_now.len()
        invariant
            i <= w_now@.len(),
            is_walk(w_now@, now@.dom()),
            alive@ == joined_flats(now@, w_now@.take(i as int)),
        decreases w_now@.len() - i,
    {
        let n: u32 = w_now[i];
        assert(w_now@.contains(n));
        assert(w_now@.take(i + 1).drop_last() =~= w_now@.take(i as int));
        if let Some(f) = now.get(&n) {
            append(&mut alive, f.as_slice());
        }
        i = i + 1;
    }
    assert(w_now@.take(i as int) =~= w_now@);
    let ghost first = alive@;
    let w_prev: Vec<u32> = keys_of(prev);
    let mut j: usize = 0;
    assert(alive@ =~= first + joined_others(prev@, w_prev@.take(0), now@.dom()));
    while j < w_prev.len()
        invariant
            j <= w_prev@.len(),
            is_walk(w_prev@, prev@.dom()),
            alive@ == first + joined_others(prev@, w_prev@.take(j as int), now@.dom()),
        decreases w_prev@.len() - j,
    {
        let n: u32 = w_prev[j];
        assert(w_prev@.contains(n));
        assert(w_prev@.take(j + 1).drop_last() =~= w_prev@.take(j as int));
        if !now.contains_key(&n) {
            if let Some(f) = prev.get(&n) {
                append(&mut alive, f.as_slice());
            }
        }
        assert(alive@ =~= first + joined_others(prev@, w_prev@.take(j + 1), now@.dom()));
        j = j + 1;
    }
    assert(w_prev@.take(j as int) =~= w_prev@);
    assert(entries(alive@, stride) == alive_keys(prev@, now@, w_prev@, w_now@, stride));
    alive
}

/// What the search for vanished rows has found so far: the keys that were written, which
/// are also in `emitted`.
spec fn emitted_shows(emitted: Map<Seq<char>, ()>, gone: Seq<Seq<u8>>) -> bool {
    forall|k: Seq<u8>| #[trigger] gone.contains(k) <==> emitted.contains_key(byte_text(k))
}

proof fn lemma_emit(emitted: Map<Seq<char>, ()>, gone: Seq<Seq<u8>>, k: Seq<u8>)
    requires
        emitted_shows(emitted, gone),
    ensures
        emitted_shows(emitted.insert(byte_text(k), ()), gone.push(k)),
{
    assert forall|x: Seq<u8>| #[trigger] gone.push(k).contains(x) <==> emitted.insert(
        byte_text(k),
        (),
    ).contains_key(byte_text(x)) by {
        if gone.contains(x) {
            let i = choose|i: int| 0 <= i < gone.len() && gone[i] == x;
            assert(gone.push(k)[i] == x);
        }
        if x == k {
            assert(gone.push(k)[gone.len() as int] == x);
        }
        if gone.push(k).contains(x) && x != k {
            let i = choose|i: int| 0 <= i < gone.push(k).len() && gone.push(k)[i] == x;
            assert(gone[i] == x);
        }
        if byte_text(x) == byte_text(k) {
            lemma_byte_text_injective(x, k);
        }
    }
}

/// Appends a key as a row to delete.
fn push_key_row(out: &mut Vec<u8>, key: &[u8], n_pk: i16)
    ensures
        final(out)@ == old(out)@ + (be16(n_pk as int) + key@),
{
    push_be16(out, n_pk);
    append(out, key);
    assert(out@ =~= old(out)@ + (be16(n_pk as int) + key@));
}

/// Whether the former keys of a page can be split into keys: entry `k` lies inside.
proof fn lemma_entry_bounds(len: int, stride: int, k: int)
    requires
        0 < stride,
        0 <= k < len / stride,
    ensures
        0 <= k * stride,
        k * stride + stride <= len,
{
    assert(0 <= k * stride) by (nonlinear_arith)
        requires
            0 < stride,
            0 <= k,
    ;
    assert(k * stride + stride <= len) by (nonlinear_arith)
        requires
            0 < stride,
            0 <= k,
            k + 1 <= len / stride,
    ;
}

/// Writes the former keys of one page that are not alive and were not written yet.
fn emit_page(
    flat: &Vec<u8>,
    stride: usize,
    alive: &Vec<u8>,
    n_pk: i16,
    emitted: &mut StringHashMap<()>,
    out: &mut Vec<u8>,
    count: u64,
    Ghost(former): Ghost<Seq<Seq<u8>>>,
    Ghost(living): Ghost<Seq<Seq<u8>>>,
    Ghost(base): Ghost<Seq<u8>>,
) -> (r: u64)
    requires
        0 < stride,
        in_order(entries(alive@, stride as int)),
        same_members(entries(alive@, stride as int), living),
        emitted_shows(old(emitted)@, vanished(former, living)),
        old(out)@ == base + concat(key_rows(vanished(former, living), n_pk)),
        count == vanished(former, living).len(),
        2 * count <= old(out)@.len(),
    ensures
        ({
            let gone = vanished(former + entries(flat@, stride as int), living);
            &&& emitted_shows(final(emitted)@, gone)
            &&& final(out)@ == base + concat(key_rows(gone, n_pk))
            &&& r == gone.len()
            &&& 2 * r <= final(out)@.len()
        }),
{
    let ghost s = stride as int;
    let ghost e = entries(flat@, s);
    let n: usize = flat.len() / stride;
    let mut count: u64 = count;
    let mut k: usize = 0;
    assert(former + e.take(0) =~= former);
    while k < n
        invariant
            k <= n,
            0 < stride,
            s == stride,
            e == entries(flat@, s),
            n == flat@.len() as int / s,
            in_order(entries(alive@, s)),
            same_members(entries(alive@, s), living),
            emitted_shows(emitted@, vanished(former + e.take(k as int), living)),
            out@ == base + concat(key_rows(vanished(former + e.take(k as int), living), n_pk)),
            count == vanished(former + e.take(k as int), living).len(),
            2 * count <= out@.len(),
        decreases n - k,
    {
        proof {
            lemma_entry_bounds(flat@.len() as int, s, k as int);
            assert(flat.len() <= usize::MAX);
        }
        let pk: &[u8] = slice_subrange(flat.as_slice(), k * stride, k * stride + stride);
        let ghost seen = former + e.take(k as int);
        let ghost next = former + e.take(k + 1);
        let ghost gone = vanished(seen, living);
        proof {
            assert(pk@ == e[k as int]);
            assert(next.drop_last() =~= seen);
            assert(next.last() == pk@);
            assert(entries(alive@, s).contains(pk@) <==> living.contains(pk@));
        }
        if !flat_pk_contains(alive.as_slice(), stride, pk) {
            let name: String = text_of_bytes(pk);
            assert(gone.contains(pk@) <==> emitted@.contains_key(name@));
            if !emitted.contains_key(name.as_str()) {
                proof {
                    lemma_emit(emitted@, gone, pk@);
                }
                emitted.insert(name, ());
                push_key_row(out, pk, n_pk);
                proof {
                    let rows = key_rows(gone, n_pk);
                    let more = key_rows(gone.push(pk@), n_pk);
                    assert(more.drop_last() =~= rows);
                    assert(more.last() == be16(n_pk as int) + pk@);
                    assert(out@ =~= base + concat(more));
                    assert(out.len() <= usize::MAX);
                }
                count = count + 1;
            }
        }
        k = k + 1;
    }
    assert(e.take(n as int) =~= e);
    count
}

/// Looks for rows that vanished and writes their keys. Returns how many there are.
fn emit_vanished(
    prev: &HashMap<u32, Vec<u8>>,
    now: &HashMap<u32, Vec<u8>>,
    stride: usize,
    n_pk: i16,
    out: &mut Vec<u8>,
    sort_ns: &mut u64,
) -> (r: (u64, Ghost<Seq<Seq<u8>>>))
    requires
        0 < stride,
    ensures
        are_vanished(r.1@, prev@, now@, stride as int),
        r.0 == r.1@.len(),
        2 * r.0 <= final(out)@.len(),
        final(out)@ == old(out)@ + concat(key_rows(r.1@, n_pk)),
{
    broadcast use vstd::std_specs::hash::group_hash_axioms;

    let ghost s = stride as int;
    let mut alive: Vec<u8> = collect_alive(prev, now, Ghost(s));
    let ghost living = entries(alive@, s);
    let t = start_timer();
    flat_pk_sort_dedup(&mut alive, stride);
    *sort_ns = elapsed_ns(&t);
    let mut emitted: StringHashMap<()> = StringHashMap::new();
    let w: Vec<u32> = keys_of(prev);
    let ghost dom = now@.dom();
    let mut count: u64 = 0;
    let mut i: usize = 0;
    proof {
        let none = vanished(former_keys(prev@, w@.take(0), dom, s), living);
        assert(none =~= Seq::empty());
        assert(key_rows(none, n_pk) =~= Seq::empty());
        assert(out@ =~= old(out)@ + concat(key_rows(none, n_pk)));
        assert(in_order(entries(alive@, s)));
    }
    while i < w.len()
        invariant
            i <= w@.len(),
            0 < stride,
            s == stride,
            dom == now@.dom(),
            is_walk(w@, prev@.dom()),
            in_order(entries(alive@, s)),
            same_members(entries(alive@, s), living),
            emitted_shows(
                emitted@,
                vanished(former_keys(prev@, w@.take(i as int), dom, s), living),
            ),
            out@ == old(out)@ + concat(
                key_rows(vanished(former_keys(prev@, w@.take(i as int), dom, s), living), n_pk),
            ),
            count == vanished(former_keys(prev@, w@.take(i as int), dom, s), living).len(),
            2 * count <= out@.len(),
        decreases w@.len() - i,
    {
        let n: u32 = w[i];
        assert(w@.contains(n));
        assert(w@.take(i + 1).drop_last() =~= w@.take(i as int));
        // The former keys of a page that was not collected anew are still alive.
        if now.contains_key(&n) {
            if let Some(flat) = prev.get(&n) {
                count = emit_page(
                    flat,
                    stride,
                    &alive,
                    n_pk,
                    &mut emitted,
                    out,
                    count,
                    Ghost(former_keys(prev@, w@.take(i as int), dom, s)),
                    Ghost(living),
                    Ghost(old(out)@),
                );
            }
        }
        i = i + 1;
    }
    let ghost gone = vanished(former_keys(prev@, w@, dom, s), living);
    proof {
        assert(w@.take(i as int) =~= w@);
        let (w_now, w_prev) = choose|w_now: Seq<u32>, w_prev: Seq<u32>|
            {
                &&& is_walk(w_now, now@.dom())
                &&& is_walk(w_prev, prev@.dom())
                &&& living == #[trigger] alive_keys(prev@, now@, w_prev, w_now, s)
            };
        assert(gone == vanished(
            former_keys(prev@, w@, now@.dom(), s),
            alive_keys(prev@, now@, w_prev, w_now, s),
        ));
    }
    (count, Ghost(gone))
}

// ── The scan ─────────────────────────────────────────────────────────────────

/// Whether `gone` are the rows that vanished without a trace. On the first scan, and
/// where no page changed, there are none.
pub open spec fn express_shows(gone: Seq<Seq<u8>>, r: ScanOutput, c: TableCache) -> bool {
    if may_vanish(c, r.new_pks_per_page@) {
        are_vanished(
            gone,
            c.prev_pks_per_page@,
            r.new_pks_per_page@,
            c.pk_byte_len as int,
        )
    } else {
        gone.len() == 0
    }
}

/// Whether the deleted rows of the result are those with stubs, `stubs`, and those that
/// vanished, `gone`.
pub open spec fn deletes_show(
    r: ScanOutput,
    c: TableCache,
    stubs: Seq<Seq<u8>>,
    gone: Seq<Seq<u8>>,
) -> bool {
    &&& express_shows(gone, r, c)
    &&& r.express_deletes == gone.len()
    &&& r.deletes == stubs.len() + gone.len()
    &&& r.delete_buf@ == copy_header() + concat(stubs) + concat(key_rows(gone, c.n_pk))
        + copy_trailer()
}

/// Whether the result `r` is what a scan of the pages of `c` gives.
pub open spec fn scan_shows(
    r: ScanOutput,
    img: Image,
    c: TableCache,
    last_txn: u64,
    gens: Map<u32, u32>,
) -> bool {
    let dps = c.data_pages@;
    let f = found(scan_visits(img, c, last_txn, gens, dps)->0, last_txn);
    &&& r.upserts == f.upserts.len()
    &&& r.max_txn == f.max_txn
    &&& r.records_checked == f.checked
    &&& r.pages_total == data_page_count(img, dps)
    &&& r.pages_skipped == unchanged_count(img, gens, dps)
    &&& r.new_gens@ == changed_gens(img, gens, dps)
    &&& holds_page_keys(r.new_pks_per_page@, img, c, last_txn, gens, dps)
    &&& exists|gone: Seq<Seq<u8>>| #[trigger] deletes_show(r, c, f.deletes, gone)
}

/// Sorting the keys of a page gives its key list.
fn sort_page_keys(keys: &mut Vec<u8>, stride: usize, Ghost(visits): Ghost<Seq<Visit>>)
    requires
        0 < stride,
        old(keys)@ == concat(visited_keys(visits)),
        forall|i: int|
            0 <= i < visited_keys(visits).len() ==> (#[trigger] visited_keys(visits)[i]).len()
                == stride,
    ensures
        holds_keys(final(keys)@, visited_keys(visits), stride as int),
{
    proof {
        lemma_concat_entries(visited_keys(visits), stride as int);
        let n = visited_keys(visits).len() as int;
        assert((stride * n) / stride as int == n) by (nonlinear_arith)
            requires
                0 < stride,
        ;
    }
    flat_pk_sort_dedup(keys, stride);
}

/// One more page: what changes in the collected generations and keys.
proof fn lemma_next_page(
    gens_now: Map<u32, u32>,
    keys_now: Map<u32, Vec<u8>>,
    flat: Vec<u8>,
    img: Image,
    c: TableCache,
    last_txn: u64,
    gens: Map<u32, u32>,
    dps: Seq<u32>,
    i: int,
)
    requires
        0 <= i < dps.len(),
        gens_now == changed_gens(img, gens, dps.take(i)),
        holds_page_keys(keys_now, img, c, last_txn, gens, dps.take(i)),
        is_data_page(img, dps[i]) && page_rebuilt(img, c, gens, dps[i]) ==> holds_keys(
            flat@,
            visited_keys(page_visits(img, c, last_txn, gens, dps[i])->0),
            c.pk_byte_len as int,
        ),
    ensures
        (if is_data_page(img, dps[i]) && page_changed(img, gens, dps[i]) {
            gens_now.insert(dps[i], page_gen(img, dps[i]))
        } else {
            gens_now
        }) == changed_gens(img, gens, dps.take(i + 1)),
        holds_page_keys(
            if is_data_page(img, dps[i]) && page_rebuilt(img, c, gens, dps[i]) {
                keys_now.insert(dps[i], flat)
            } else {
                keys_now
            },
            img,
            c,
            last_txn,
            gens,
            dps.take(i + 1),
        ),
{
    assert forall|n: u32| dps.take(i + 1).contains(n) <==> #[trigger] dps.take(i).contains(n) || n
        == dps[i] by {
        lemma_take_contains(dps, i, n);
    }
    let g = if is_data_page(img, dps[i]) && page_changed(img, gens, dps[i]) {
        gens_now.insert(dps[i], page_gen(img, dps[i]))
    } else {
        gens_now
    };
    assert(g =~= changed_gens(img, gens, dps.take(i + 1))) by {
        assert forall|n: u32| #[trigger] g.contains_key(n) <==> changed_gens(
            img,
            gens,
            dps.take(i + 1),
        ).contains_key(n) by {
            lemma_take_contains(dps, i, n);
        }
    }
    let k = if is_data_page(img, dps[i]) && page_rebuilt(img, c, gens, dps[i]) {
        keys_now.insert(dps[i], flat)
    } else {
        keys_now
    };
    assert forall|n: u32| #[trigger] k.contains_key(n) <==> dps.take(i + 1).contains(n)
        && is_data_page(img, n) && page_rebuilt(img, c, gens, n) by {
        lemma_take_contains(dps, i, n);
        assert(keys_now.contains_key(n) <==> dps.take(i).contains(n) && is_data_page(img, n)
            && page_rebuilt(img, c, gens, n));
    }
    assert forall|n: u32| #[trigger] k.contains_key(n) implies holds_keys(
        k[n]@,
        visited_keys(page_visits(img, c, last_txn, gens, n)->0),
        c.pk_byte_len as int,
    ) by {
        if n != dps[i] {
            assert(keys_now.contains_key(n));
        }
    }
}

/// Scans the pages of a table for changes since the transaction `last_txn`. The rows that
/// were inserted or updated are appended to `upsert`; the keys of those that were deleted
/// are in the result.
pub fn scan_changes_into(
    db: &OdsReader,
    c: &TableCache,
    last_txn: u64,
    page_gens: &HashMap<u32, u32>,
    upsert: &mut Vec<u8>,
) -> (r: ScanOutput)
    requires
        db.wf(),
        c.wf(),
        c.data_pages@.len() <= u32::MAX,
        scan_visits(db@, *c, last_txn, page_gens@, c.data_pages@) is Some,
    ensures
        scan_shows(r, db@, *c, last_txn, page_gens@),
        final(upsert)@ == old(upsert)@ + copy_header() + concat(
            found(
                scan_visits(db@, *c, last_txn, page_gens@, c.data_pages@)->0,
                last_txn,
            ).upserts,
        ) + copy_trailer(),
{
    broadcast use vstd::std_specs::hash::group_hash_axioms;

    let ghost img = db@;
    let ghost gens = page_gens@;
    let ghost dps = c.data_pages@;
    let ghost all = scan_visits(img, *c, last_txn, gens, dps);
    let mut st: ScanState = ScanState {
        upsert: Vec::new(),
        delete: Vec::new(),
        upserts: 0,
        deletes: 0,
        max_txn: last_txn,
        checked: 0,
        page_keys: Vec::new(),
        rec_buf: Vec::new(),
        text_buf: Vec::new(),
        pk_tmp: Vec::new(),
    };
    std::mem::swap(&mut st.upsert, upsert);
    push_copy_header(&mut st.upsert);
    push_copy_header(&mut st.delete);
    let ghost ub = st.upsert@;
    let ghost dbase = st.delete@;
    let mut new_gens: HashMap<u32, u32> = HashMap::new();
    let mut new_pks: HashMap<u32, Vec<u8>> = HashMap::new();
    let mut pages_total: u32 = 0;
    let mut pages_skipped: u32 = 0;
    let mut sort_page_ns: u64 = 0;
    let first_cycle: bool = c.pk_byte_len > 0 && c.prev_pks_per_page.is_empty();
    let ghost mut visits: Seq<Visit> = Seq::empty();
    let mut i: usize = 0;
    proof {
        assert(dps.skip(0) =~= dps);
        assert(dps.take(0) =~= Seq::empty());
        assert(visits + all->0 =~= all->0);
        assert(ub + concat(Seq::empty()) =~= ub);
        assert(dbase + concat(Seq::empty()) =~= dbase);
        assert(new_gens@ =~= changed_gens(img, gens, dps.take(0)));
        assert(holds_page_keys(new_pks@, img, *c, last_txn, gens, dps.take(0)));
    }
    while i < c.data_pages.len()
        invariant
            i <= dps.len() <= u32::MAX,
            dps == c.data_pages@,
            db.wf(),
            c.wf(),
            img == db@,
            gens == page_gens@,
            first_cycle == c.first_cycle(),
            scan_visits(img, *c, last_txn, gens, dps.skip(i as int)) is Some,
            all == behind(visits, scan_visits(img, *c, last_txn, gens, dps.skip(i as int))),
            st.shows(found(visits, last_txn), ub, dbase),
            st.checked <= 0xffff * i,
            pages_total <= i,
            pages_skipped <= i,
            pages_total == data_page_count(img, dps.take(i as int)),
            pages_skipped == unchanged_count(img, gens, dps.take(i as int)),
            new_gens@ == changed_gens(img, gens, dps.take(i as int)),
            holds_page_keys(new_pks@, img, *c, last_txn, gens, dps.take(i as int)),
        decreases dps.len() - i,
    {
        let n: u32 = c.data_pages[i];
        proof {
            assert(dps.skip(i as int)[0] == n);
            assert(dps.skip(i as int).skip(1) =~= dps.skip(i + 1));
            assert(dps.take(i + 1).drop_last() =~= dps.take(i as int));
            assert(dps.take(i + 1).last() == n);
        }
        let ghost pv = page_visits(img, *c, last_txn, gens, n)->0;
        let ghost gens_before = new_gens@;
        let ghost keys_before = new_pks@;
        let ghost mut flat: Vec<u8> = arbitrary();
        let dp: &[u8] = db.page(n);
        if dp[0] == PAG_DATA {
            pages_total = pages_total + 1;
            let gen: u32 = get_u32(dp, 4);
            let changed: bool = match page_gens.get(&n) {
                Some(g) => *g != gen,
                None => true,
            };
            if changed {
                new_gens.insert(n, gen);
            } else {
                pages_skipped = pages_skipped + 1;
            }
            let rebuild: bool = c.pk_byte_len > 0 && (changed || first_cycle);
            st.scan_page(
                db,
                c,
                last_txn,
                changed,
                rebuild,
                dp,
                Ghost(visits),
                Ghost(ub),
                Ghost(dbase),
            );
            if rebuild {
                let mut keys: Vec<u8> = Vec::new();
                std::mem::swap(&mut keys, &mut st.page_keys);
                let t = start_timer();
                sort_page_keys(&mut keys, c.pk_byte_len, Ghost(pv));
                sort_page_ns = sort_page_ns.wrapping_add(elapsed_ns(&t));
                proof {
                    flat = keys;
                }
                new_pks.insert(n, keys);
            }
        } else {
            assert(visits + pv =~= visits);
        }
        proof {
            lemma_next_page(
                gens_before,
                keys_before,
                flat,
                img,
                *c,
                last_txn,
                gens,
                dps,
                i as int,
            );
            let rest = scan_visits(img, *c, last_txn, gens, dps.skip(i + 1))->0;
            assert(visits + (pv + rest) =~= visits + pv + rest);
            visits = visits + pv;
        }
        i = i + 1;
    }
    proof {
        assert(dps.take(i as int) =~= dps);
        assert(visits + Seq::<Visit>::empty() =~= visits);
    }
    let ghost f = found(visits, last_txn);
    let mut express_deletes: u64 = 0;
    let mut sort_alive_ns: u64 = 0;
    let mut express_ns: u64 = 0;
    let ghost mut gone: Seq<Seq<u8>> = Seq::empty();
    assert(st.delete@ =~= st.delete@ + concat(key_rows(gone, c.n_pk))) by {
        assert(key_rows(gone, c.n_pk) =~= Seq::empty());
    }
    if c.pk_byte_len > 0 && !first_cycle && !new_pks.is_empty() {
        let t = start_timer();
        let (n, g): (u64, Ghost<Seq<Seq<u8>>>) = emit_vanished(
            &c.prev_pks_per_page,
            &new_pks,
            c.pk_byte_len,
            c.n_pk,
            &mut st.delete,
            &mut sort_alive_ns,
        );
        express_deletes = n;
        proof {
            gone = g@;
        }
        express_ns = elapsed_ns(&t);
    }
    proof {
        assert(st.delete.len() <= usize::MAX);
    }
    push_copy_trailer(&mut st.upsert);
    push_copy_trailer(&mut st.delete);
    std::mem::swap(&mut st.upsert, upsert);
    let r: ScanOutput = ScanOutput {
        delete_buf: st.delete,
        upserts: st.upserts,
        deletes: st.deletes + express_deletes,
        max_txn: st.max_txn,
        new_gens,
        new_pks_per_page: new_pks,
        pages_total,
        pages_skipped,
        records_checked: st.checked,
        express_deletes,
        sort_page_ns,
        sort_alive_ns,
        express_ns,
    };
    proof {
        assert(dbase =~= copy_header());
        assert(deletes_show(r, *c, f.deletes, gone));
    }
    r
}

/// Scans without keeping the rows that were inserted or updated.
pub fn scan_changes(
    db: &OdsReader,
    c: &TableCache,
    last_txn: u64,
    page_gens: &HashMap<u32, u32>,
) -> (r: ScanOutput)
    requires
        db.wf(),
        c.wf(),
        c.data_pages@.len() <= u32::MAX,
        scan_visits(db@, *c, last_txn, page_gens@, c.data_pages@) is Some,
    ensures
        scan_shows(r, db@, *c, last_txn, page_gens@),
{
    let mut sink: Vec<u8> = Vec::new();
    scan_changes_into(db, c, last_txn, page_gens, &mut sink)
}

} // verus!
