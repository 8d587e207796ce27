//! What a delta holds: the rows that are sent, and the keys of those that are deleted.
use crate::bytes::{be16, bytes_le, le16, le32};
use crate::cdc::{
    any_version, back_version, fixed_key, fixed_len, found, holds_keys, is_data_page, key_len,
    key_rows, key_stride, page_changed, page_rebuilt, page_visits, scan_visits, visit,
    visited_keys, SlotInfo, TableCache, Visit, MAX_CHAIN_DEPTH,
};
use crate::copy_laws::{
    column_values, fits_field, law_row_is_read, law_stream_is_read, lemma_concat_join,
    lemma_count_is_read, lemma_read_columns, lemma_read_shifted, lemma_value_fits, read_fields,
    read_row, read_stream,
};
use crate::extract::{copy_stream, row_bytes, row_ok, slot_value};
use crate::flatpk::entries;
use crate::ods::{
    flagged, page_scan, slot, slot_count, transaction, Desc, Image, OdsError, RHD_CHAIN,
    RHD_DELETED,
};
use crate::scan::{deletes_show, scan_shows, ScanOutput};
use crate::scan_laws::{
    is_there, law_scan_reports_vanished_rows, lemma_page_visit_from, lemma_visit_from,
    page_records, was_there, whole_keys,
};
use crate::sql_laws::sql_name;
use crate::sqz::law_unpacked_is_bounded;
use crate::sync::{cache_shows, column_named, upsert_stream};
use crate::text::{eq_ascii_fold, lowercase, texts};
use crate::text_laws::law_quoted;
use vstd::prelude::*;

verus! {

// ── Versions ─────────────────────────────────────────────────────────────────

/// The record that another one points back to: the page and the line stand in its header.
pub open spec fn points_to(img: Image, raw: Seq<u8>, back: Seq<u8>) -> bool {
    img.slot_raw(
        raw[4] + 0x100 * raw[5] + 0x1_0000 * raw[6] + 0x100_0000 * raw[7],
        raw[8] + 0x100 * raw[9],
    ) == Some(Some(back))
}

/// Whether `chain` leads back from its first record to the last version that has data, over
/// none that has.
pub open spec fn leads_to_data(img: Image, chain: Seq<Seq<u8>>) -> bool {
    &&& 2 <= chain.len() <= 9
    &&& forall|i: int| 0 <= i < chain.len() - 1 ==> points_to(img, chain[i], #[trigger] chain[i + 1])
    &&& forall|i: int| 0 < i < chain.len() - 1 ==> any_version(#[trigger] chain[i]) is None
    &&& any_version(chain.last()) is Some
}

proof fn lemma_back_version(img: Image, raw: Seq<u8>, depth: nat) -> (chain: Seq<Seq<u8>>)
    requires
        back_version(img, le32(raw, 4), le16(raw, 8), depth) is Some,
        back_version(img, le32(raw, 4), le16(raw, 8), depth)->0 is Some,
    ensures
        chain.len() >= 2,
        chain.len() <= depth + 1,
        chain[0] == raw,
        forall|i: int|
            0 <= i < chain.len() - 1 ==> points_to(img, chain[i], #[trigger] chain[i + 1]),
        forall|i: int| 0 < i < chain.len() - 1 ==> any_version(#[trigger] chain[i]) is None,
        any_version(chain.last()) is Some,
        back_version(img, le32(raw, 4), le16(raw, 8), depth) == Some(
            Some((any_version(chain.last())->0, chain.last()[12])),
        ),
    decreases depth,
{
    let back = img.slot_raw(le32(raw, 4), le16(raw, 8))->0->0;
    if any_version(back) is Some {
        let chain = seq![raw, back];
        chain
    } else {
        let more = lemma_back_version(img, back, (depth - 1) as nat);
        let chain = seq![raw] + more;
        assert forall|i: int| 0 <= i < chain.len() - 1 implies points_to(
            img,
            chain[i],
            #[trigger] chain[i + 1],
        ) by {
            if i > 0 {
                assert(chain[i] == more[i - 1]);
                assert(chain[i + 1] == more[i - 1 + 1]);
            }
        }
        assert forall|i: int| 0 < i < chain.len() - 1 implies any_version(
            #[trigger] chain[i],
        ) is None by {
            assert(chain[i] == more[i - 1]);
        }
        assert(chain.last() == more.last());
        chain
    }
}

/// What is unpacked from a record of a page fits a field.
proof fn lemma_version_len(raw: Seq<u8>)
    requires
        raw.len() <= 65_535,
        any_version(raw) is Some,
    ensures
        any_version(raw)->0.len() <= 262_144,
{
    law_unpacked_is_bounded(raw.skip(13));
    law_unpacked_is_bounded(raw.skip(16));
}

proof fn lemma_all_fit(rec: Seq<u8>, slots: Seq<crate::extract::CopySlot>)
    requires
        rec.len() <= 262_144,
        row_ok(rec, slots),
    ensures
        forall|k: int| 0 <= k < slots.len() ==> fits_field(slot_value(rec, #[trigger] slots[k])),
{
    assert forall|k: int| 0 <= k < slots.len() implies fits_field(
        slot_value(rec, #[trigger] slots[k]),
    ) by {
        lemma_value_fits(rec, slots[k]);
    }
}

proof fn lemma_slot_len(img: Image, n: int, s: int)
    requires
        img.wf(),
        img.slot_raw(n, s) is Some,
        img.slot_raw(n, s)->0 is Some,
        0 <= n,
    ensures
        img.slot_raw(n, s)->0->0.len() <= 65_535,
{
    assert(n * img.page_size >= 0) by (nonlinear_arith)
        requires
            0 <= n,
            1024 <= img.page_size,
    ;
    assert(img.page(n).len() == img.page_size);
}

// ── Deleted rows ─────────────────────────────────────────────────────────────

/// The row that a delete stub gives names the row by its key: it has as many fields as the
/// key has columns, and they are the values that the key columns had in the last version of
/// the row, by the format of that version.
pub proof fn law_deleted_row_is_its_key(
    img: Image,
    c: TableCache,
    last_txn: u64,
    changed: bool,
    rebuild: bool,
    raw: Seq<u8>,
    v: Visit,
) -> (chain: Seq<Seq<u8>>)
    requires
        img.wf(),
        c.n_pk == c.pk_indices@.len(),
        visit(img, c, last_txn, changed, rebuild, raw) == Some(v),
        v.delete is Some,
    ensures
        chain[0] == raw,
        leads_to_data(img, chain),
        raw[10] % 2 == 1,
        transaction(raw) is Some && transaction(raw)->0 > last_txn,
        match read_row(v.delete->0) {
            Some(values) => {
                &&& values.len() == c.pk_indices@.len()
                &&& forall|i: int|
                    0 <= i < values.len() ==> #[trigger] values[i] == slot_value(
                        any_version(chain.last())->0,
                        c.slots_in(chain.last()[12])[c.pk_indices@[i]->0 as int].column(),
                    )
            },
            None => false,
        },
{
    lemma_deleted_flag(raw);
    let chain = lemma_back_version(img, raw, MAX_CHAIN_DEPTH as nat);
    let m = chain.len() - 2;
    assert(points_to(img, chain[m], chain[m + 1]));
    let back = chain.last();
    lemma_slot_len(
        img,
        chain[m][4] + 0x100 * chain[m][5] + 0x1_0000 * chain[m][6] + 0x100_0000 * chain[m][7],
        chain[m][8] + 0x100 * chain[m][9],
    );
    lemma_version_len(back);
    let rec = any_version(back)->0;
    let slots = c.key_columns(back[12]);
    lemma_all_fit(rec, slots);
    law_row_is_read(rec, slots, c.n_pk);
    assert(v.delete->0 =~= row_bytes(rec, slots, c.n_pk));
    chain
}

/// The lowest flag of a record says that it is deleted.
proof fn lemma_deleted_flag(raw: Seq<u8>)
    ensures
        flagged(raw, RHD_DELETED) <==> raw[10] % 2 == 1,
{
    let f: u16 = le16(raw, 10) as u16;
    assert((f & 1 != 0) <==> f % 2 == 1) by (bit_vector);
}

/// The second flag of a record says that it is an older version.
proof fn lemma_chain_flag(raw: Seq<u8>)
    ensures
        flagged(raw, RHD_CHAIN) <==> raw[10] / 2 % 2 == 1,
{
    let f: u16 = le16(raw, 10) as u16;
    assert((f & 2 != 0) <==> (f / 2) % 2 == 1) by (bit_vector);
    assert((raw[10] + 0x100 * raw[11]) / 2 % 2 == raw[10] / 2 % 2);
}

// ── Which rows are sent ──────────────────────────────────────────────────────

/// A deleted row is reported wherever its last version can be reached in eight steps, over
/// records that are deleted or older versions themselves.
pub proof fn law_deleted_row_is_reported(
    img: Image,
    c: TableCache,
    last_txn: u64,
    changed: bool,
    rebuild: bool,
    raw: Seq<u8>,
    v: Visit,
    chain: Seq<Seq<u8>>,
)
    requires
        raw.len() >= 13,
        visit(img, c, last_txn, changed, rebuild, raw) == Some(v),
        raw[10] % 2 == 1,
        transaction(raw) is Some && transaction(raw)->0 > last_txn,
        any_version(raw) is Some,
        raw[4] + raw[5] + raw[6] + raw[7] > 0,
        c.pk_tracked,
        chain[0] == raw,
        leads_to_data(img, chain),
        forall|i: int|
            0 < i < chain.len() - 1 ==> (#[trigger] chain[i]).len() >= 13 && (chain[i][10] % 2 == 1
                || chain[i][10] / 2 % 2 == 1),
    ensures
        v.delete is Some,
{
    lemma_deleted_flag(raw);
    lemma_reached(img, chain, 0, 8);
}

proof fn lemma_reached(img: Image, chain: Seq<Seq<u8>>, k: int, depth: nat)
    requires
        leads_to_data(img, chain),
        0 <= k < chain.len() - 1,
        depth >= chain.len() - 1 - k,
        forall|i: int|
            0 < i < chain.len() - 1 ==> (#[trigger] chain[i]).len() >= 13 && (chain[i][10] % 2 == 1
                || chain[i][10] / 2 % 2 == 1),
    ensures
        back_version(img, le32(chain[k], 4), le16(chain[k], 8), depth) == Some(
            Some((any_version(chain.last())->0, chain.last()[12])),
        ),
    decreases depth,
{
    assert(points_to(img, chain[k], chain[k + 1]));
    let back = chain[k + 1];
    if k + 1 < chain.len() - 1 {
        assert(any_version(back) is None);
        assert(back.len() >= 13);
        lemma_either_flag(back);
        lemma_reached(img, chain, k + 1, (depth - 1) as nat);
    }
}

/// The two lowest flags together.
proof fn lemma_either_flag(raw: Seq<u8>)
    ensures
        flagged(raw, RHD_CHAIN | RHD_DELETED) <==> raw[10] % 2 == 1 || raw[10] / 2 % 2 == 1,
{
    let f: u16 = le16(raw, 10) as u16;
    assert((f & (2u16 | 1)) != 0 <==> f % 2 == 1 || (f / 2) % 2 == 1) by (bit_vector);
    assert((raw[10] + 0x100 * raw[11]) / 2 % 2 == raw[10] / 2 % 2);
}

/// A row is sent if and only if its page changed, its transaction is new, it is not deleted
/// and it has data; a deleted one, with a new transaction, is reported where the table has a
/// key that is known and the version before is there. Nothing is reported of a transaction
/// that is not new.
pub proof fn law_new_rows_are_reported(
    img: Image,
    c: TableCache,
    last_txn: u64,
    changed: bool,
    rebuild: bool,
    raw: Seq<u8>,
    v: Visit,
)
    requires
        raw.len() >= 13,
        visit(img, c, last_txn, changed, rebuild, raw) == Some(v),
    ensures
        ({
            let is_new = transaction(raw) is Some && transaction(raw)->0 > last_txn;
            let deleted = raw[10] % 2 == 1;
            let older = raw[10] / 2 % 2 == 1;
            &&& v.upsert is Some <==> changed && is_new && !deleted && any_version(raw) is Some
            &&& v.delete is Some ==> is_new && deleted && c.pk_tracked
            &&& is_new && deleted && c.pk_tracked && any_version(raw) is Some ==> (forall|
                back: Seq<u8>,
            |
                raw[4] + raw[5] + raw[6] + raw[7] > 0 && points_to(img, raw, back)
                    && #[trigger] any_version(back) is Some ==> v.delete is Some)
            &&& v.txn == (if is_new && (changed || rebuild || deleted) {
                transaction(raw)
            } else {
                None
            })
            &&& v.key is Some ==> rebuild && !deleted && !older && transaction(raw) is Some
            &&& rebuild && !deleted && !older && transaction(raw) is Some && any_version(
                raw,
            ) is Some && c.key_bytes(any_version(raw)->0, raw[12]).len() == c.pk_byte_len
                ==> v.key is Some
        }),
{
    lemma_deleted_flag(raw);
    lemma_chain_flag(raw);
}

/// A row that is sent is the whole row: a field for each column, in their order, with the
/// values that the record holds by its own format.
pub proof fn law_sent_row_is_whole(
    img: Image,
    c: TableCache,
    last_txn: u64,
    changed: bool,
    rebuild: bool,
    raw: Seq<u8>,
    v: Visit,
)
    requires
        13 <= raw.len() <= 65_535,
        c.n_fields == c.slots_in(raw[12]).len(),
        visit(img, c, last_txn, changed, rebuild, raw) == Some(v),
        v.upsert is Some,
    ensures
        match read_row(v.upsert->0) {
            Some(values) => {
                &&& values.len() == c.slots_in(raw[12]).len()
                &&& forall|i: int|
                    0 <= i < values.len() ==> #[trigger] values[i] == slot_value(
                        any_version(raw)->0,
                        c.slots_in(raw[12])[i].column(),
                    )
            },
            None => false,
        },
{
    let rec = any_version(raw)->0;
    let slots = c.columns(raw[12]);
    lemma_version_len(raw);
    lemma_all_fit(rec, slots);
    law_row_is_read(rec, slots, c.n_fields);
}

/// Whether `k` is the fields of a key, one behind the other, and they have these values.
pub open spec fn holds_values(c: TableCache, k: Seq<u8>, values: Seq<Option<Seq<u8>>>) -> bool {
    &&& values.len() == c.pk_indices@.len()
    &&& read_fields(k, 0, c.pk_indices@.len()) == Some((values, k.len() as int))
}

/// A key that is collected is the fields of the key columns of a row that is alive.
pub proof fn law_collected_key_is_read(
    img: Image,
    c: TableCache,
    last_txn: u64,
    changed: bool,
    rebuild: bool,
    raw: Seq<u8>,
    v: Visit,
)
    requires
        13 <= raw.len() <= 65_535,
        visit(img, c, last_txn, changed, rebuild, raw) == Some(v),
        v.key is Some,
    ensures
        v.key->0.len() == c.pk_byte_len,
        any_version(raw) is Some,
        holds_values(
            c,
            v.key->0,
            Seq::new(
                c.pk_indices@.len(),
                |i: int|
                    slot_value(
                        any_version(raw)->0,
                        c.slots_in(raw[12])[c.pk_indices@[i]->0 as int].column(),
                    ),
            ),
        ),
{
    let rec = any_version(raw)->0;
    let slots = c.key_columns(raw[12]);
    let k = v.key->0;
    lemma_version_len(raw);
    lemma_all_fit(rec, slots);
    assert(k.subrange(0, k.len() as int) =~= k);
    lemma_read_columns(rec, slots, slots.len(), k, 0);
    assert(column_values(rec, slots).take(slots.len() as int) =~= Seq::new(
        c.pk_indices@.len(),
        |i: int|
            slot_value(
                any_version(raw)->0,
                c.slots_in(raw[12])[c.pk_indices@[i]->0 as int].column(),
            ),
    ));
}

// ── The whole delta ──────────────────────────────────────────────────────────

proof fn lemma_delete_from(visits: Seq<Visit>, last_txn: u64, i: int) -> (j: int)
    requires
        0 <= i < found(visits, last_txn).deletes.len(),
    ensures
        0 <= j < visits.len(),
        visits[j].delete == Some(found(visits, last_txn).deletes[i]),
    decreases visits.len(),
{
    let front = found(visits.drop_last(), last_txn).deletes;
    if i < front.len() {
        let j = lemma_delete_from(visits.drop_last(), last_txn, i);
        assert(visits.drop_last()[j] == visits[j]);
        j
    } else {
        visits.len() - 1
    }
}

proof fn lemma_upsert_from(visits: Seq<Visit>, last_txn: u64, i: int) -> (j: int)
    requires
        0 <= i < found(visits, last_txn).upserts.len(),
    ensures
        0 <= j < visits.len(),
        visits[j].upsert == Some(found(visits, last_txn).upserts[i]),
    decreases visits.len(),
{
    let front = found(visits.drop_last(), last_txn).upserts;
    if i < front.len() {
        let j = lemma_upsert_from(visits.drop_last(), last_txn, i);
        assert(visits.drop_last()[j] == visits[j]);
        j
    } else {
        visits.len() - 1
    }
}

/// Every change that a record gives is in the delta.
pub proof fn law_no_change_is_left_out(visits: Seq<Visit>, last_txn: u64, j: int)
    requires
        0 <= j < visits.len(),
    ensures
        visits[j].upsert is Some ==> found(visits, last_txn).upserts.contains(
            visits[j].upsert->0,
        ),
        visits[j].delete is Some ==> found(visits, last_txn).deletes.contains(
            visits[j].delete->0,
        ),
        visits[j].txn is Some ==> found(visits, last_txn).max_txn >= visits[j].txn->0,
    decreases visits.len(),
{
    let front = found(visits.drop_last(), last_txn);
    let all = found(visits, last_txn);
    if j < visits.len() - 1 {
        law_no_change_is_left_out(visits.drop_last(), last_txn, j);
        assert(visits.drop_last()[j] == visits[j]);
        if visits[j].upsert is Some {
            let k = choose|k: int|
                0 <= k < front.upserts.len() && front.upserts[k] == visits[j].upsert->0;
            assert(all.upserts[k] == visits[j].upsert->0);
        }
        if visits[j].delete is Some {
            let k = choose|k: int|
                0 <= k < front.deletes.len() && front.deletes[k] == visits[j].delete->0;
            assert(all.deletes[k] == visits[j].delete->0);
        }
    } else {
        if visits[j].upsert is Some {
            assert(all.upserts.last() == visits[j].upsert->0);
        }
        if visits[j].delete is Some {
            assert(all.deletes.last() == visits[j].delete->0);
        }
    }
}

/// Whether `values` are those of the key columns in the last version of a row that a new
/// transaction deleted.
pub open spec fn is_deleted_key(
    img: Image,
    c: TableCache,
    last_txn: u64,
    values: Seq<Option<Seq<u8>>>,
) -> bool {
    exists|chain: Seq<Seq<u8>>|
        {
            &&& #[trigger] leads_to_data(img, chain)
            &&& chain[0][10] % 2 == 1
            &&& transaction(chain[0]) is Some && transaction(chain[0])->0 > last_txn
            &&& forall|i: int|
                0 <= i < values.len() ==> #[trigger] values[i] == slot_value(
                    any_version(chain.last())->0,
                    c.slots_in(chain.last()[12])[c.pk_indices@[i]->0 as int].column(),
                )
        }
}

/// Whether `values` are those of a key that was on a page that changed and is nowhere now.
pub open spec fn is_vanished_key(
    c: TableCache,
    r: ScanOutput,
    values: Seq<Option<Seq<u8>>>,
) -> bool {
    exists|k: Seq<u8>|
        {
            &&& #[trigger] holds_values(c, k, values)
            &&& was_there(
                c.prev_pks_per_page@,
                r.new_pks_per_page@,
                c.pk_byte_len as int,
                k,
            )
            &&& !is_there(
                c.prev_pks_per_page@,
                r.new_pks_per_page@,
                c.pk_byte_len as int,
                k,
            )
        }
}

/// Whether the keys that are kept are keys of the table.
pub open spec fn keeps_keys(c: TableCache, m: Map<u32, Vec<u8>>) -> bool {
    forall|n: u32, k: Seq<u8>|
        m.contains_key(n) && #[trigger] entries(m[n]@, c.pk_byte_len as int).contains(k)
            ==> exists|values: Seq<Option<Seq<u8>>>| holds_values(c, k, values)
}

proof fn lemma_records_len(p: Seq<u8>, s: int, n: int, k: int)
    requires
        p.len() <= 65_535,
        0 <= k < page_scan(p, s, n).recs.len(),
    ensures
        page_scan(p, s, n).recs[k].len() <= 65_535,
    decreases n - s,
{
    if s < n {
        let rest = page_scan(p, s + 1, n).recs;
        match slot(p, s) {
            Some(raw) => {
                if k > 0 {
                    lemma_records_len(p, s + 1, n, k - 1);
                    assert((seq![raw] + rest)[k] == rest[k - 1]);
                }
            },
            None => {
                lemma_records_len(p, s + 1, n, k);
            },
        }
    }
}

/// A visit of a scan is that of a record of the table, no longer than a page.
proof fn lemma_visited_record(
    img: Image,
    c: TableCache,
    last_txn: u64,
    gens: Map<u32, u32>,
    dps: Seq<u32>,
    j: int,
) -> (r: (Seq<u8>, u32))
    requires
        img.wf(),
        scan_visits(img, c, last_txn, gens, dps) is Some,
        0 <= j < scan_visits(img, c, last_txn, gens, dps)->0.len(),
    ensures
        r.0.len() <= 65_535,
        visit(
            img,
            c,
            last_txn,
            page_changed(img, gens, r.1),
            page_rebuilt(img, c, gens, r.1),
            r.0,
        ) == Some(scan_visits(img, c, last_txn, gens, dps)->0[j]),
{
    let v = scan_visits(img, c, last_txn, gens, dps)->0[j];
    lemma_visit_from(img, c, last_txn, gens, dps, j);
    let k = choose|k: int|
        {
            &&& 0 <= k < dps.len()
            &&& page_visits(img, c, last_txn, gens, #[trigger] dps[k]) is Some
            &&& page_visits(img, c, last_txn, gens, dps[k])->0.contains(v)
        };
    let n = dps[k];
    lemma_page_visit_from(img, c, last_txn, gens, n, v);
    let m = choose|m: int|
        {
            &&& 0 <= m < page_records(img, n).len()
            &&& visit(
                img,
                c,
                last_txn,
                page_changed(img, gens, n),
                page_rebuilt(img, c, gens, n),
                #[trigger] page_records(img, n)[m],
            ) == Some(v)
        };
    let p = img.page(n as int);
    assert(n as int * img.page_size >= 0) by (nonlinear_arith)
        requires
            0 <= n as int,
            1024 <= img.page_size,
    ;
    assert(p.len() == img.page_size);
    lemma_records_len(p, 0, slot_count(p), m);
    (page_records(img, n)[m], n)
}

proof fn lemma_key_row_is_read(c: TableCache, k: Seq<u8>, values: Seq<Option<Seq<u8>>>)
    requires
        c.n_pk == c.pk_indices@.len(),
        holds_values(c, k, values),
    ensures
        read_row(be16(c.n_pk as int) + k) == Some(values),
{
    let n = c.n_pk as int;
    let row = be16(n) + k;
    lemma_count_is_read(n);
    assert(row[0] == be16(n)[0] && row[1] == be16(n)[1]);
    assert(0x100 * row[0] + row[1] == n);
    assert(row.subrange(2, 2 + k.len() as int) =~= k);
    lemma_read_shifted(k, 0, n as nat, row, 2);
}

/// The delete stream of a scan is a stream of keys: it is read back as so many rows as the
/// scan counts, each with as many fields as the key has columns. The first are the keys of
/// the rows that were deleted, the last those of the rows that vanished.
pub proof fn law_delete_stream_is_keys(
    r: ScanOutput,
    img: Image,
    c: TableCache,
    last_txn: u64,
    gens: Map<u32, u32>,
)
    requires
        img.wf(),
        scan_visits(img, c, last_txn, gens, c.data_pages@) is Some,
        scan_shows(r, img, c, last_txn, gens),
        c.n_pk == c.pk_indices@.len(),
        c.pk_byte_len > 0 ==> whole_keys(c.prev_pks_per_page@, c.pk_byte_len as int),
        keeps_keys(c, c.prev_pks_per_page@),
    ensures
        r.express_deletes <= r.deletes,
        match read_stream(r.delete_buf@) {
            Some(rows) => {
                &&& rows.len() == r.deletes
                &&& forall|i: int|
                    0 <= i < rows.len() ==> (#[trigger] rows[i]).len() == c.pk_indices@.len() && (
                    if i < r.deletes - r.express_deletes {
                        is_deleted_key(img, c, last_txn, rows[i])
                    } else {
                        is_vanished_key(c, r, rows[i])
                    })
            },
            None => false,
        },
{
    let visits = scan_visits(img, c, last_txn, gens, c.data_pages@)->0;
    let stubs = found(visits, last_txn).deletes;
    let gone = choose|gone: Seq<Seq<u8>>| #[trigger] deletes_show(r, c, stubs, gone);
    let tails = key_rows(gone, c.n_pk);
    let rows = stubs + tails;
    lemma_concat_join(stubs, tails);
    assert(r.delete_buf@ =~= copy_stream(rows));
    let values = Seq::new(rows.len(), |i: int| read_row(rows[i])->0);
    assert forall|i: int| 0 <= i < rows.len() implies read_row(#[trigger] rows[i]) == Some(
        values[i],
    ) && values[i].len() == c.pk_indices@.len() && (if i < stubs.len() {
        is_deleted_key(img, c, last_txn, values[i])
    } else {
        is_vanished_key(c, r, values[i])
    }) by {
        if i < stubs.len() {
            let j = lemma_delete_from(visits, last_txn, i);
            let (raw, n) = lemma_visited_record(img, c, last_txn, gens, c.data_pages@, j);
            let chain = law_deleted_row_is_its_key(
                img,
                c,
                last_txn,
                page_changed(img, gens, n),
                page_rebuilt(img, c, gens, n),
                raw,
                visits[j],
            );
            assert(rows[i] == stubs[i]);
            assert(leads_to_data(img, chain));
        } else {
            let k = gone[i - stubs.len()];
            assert(tails[i - stubs.len()] == be16(c.n_pk as int) + k);
            assert(gone.contains(k));
            law_scan_reports_vanished_rows(r, img, c, last_txn, gens, stubs, gone, k);
            let n = choose|n: u32| #[trigger]
                c.prev_pks_per_page@.contains_key(n) && r.new_pks_per_page@.contains_key(n)
                    && entries(c.prev_pks_per_page@[n]@, c.pk_byte_len as int).contains(k);
            let vs = choose|vs: Seq<Option<Seq<u8>>>| holds_values(c, k, vs);
            lemma_key_row_is_read(c, k, vs);
            assert(holds_values(c, k, vs));
        }
    }
    law_stream_is_read(rows, values);
}

proof fn lemma_key_from(visits: Seq<Visit>, i: int) -> (j: int)
    requires
        0 <= i < visited_keys(visits).len(),
    ensures
        0 <= j < visits.len(),
        visits[j].key == Some(visited_keys(visits)[i]),
    decreases visits.len(),
{
    let front = visited_keys(visits.drop_last());
    if i < front.len() {
        let j = lemma_key_from(visits.drop_last(), i);
        assert(visits.drop_last()[j] == visits[j]);
        j
    } else {
        visits.len() - 1
    }
}

/// What a scan keeps for the next one are keys of the table.
pub proof fn law_scan_keeps_keys(
    r: ScanOutput,
    img: Image,
    c: TableCache,
    last_txn: u64,
    gens: Map<u32, u32>,
)
    requires
        img.wf(),
        scan_visits(img, c, last_txn, gens, c.data_pages@) is Some,
        scan_shows(r, img, c, last_txn, gens),
    ensures
        keeps_keys(c, r.new_pks_per_page@),
{
    let m = r.new_pks_per_page@;
    assert forall|n: u32, k: Seq<u8>|
        m.contains_key(n) && #[trigger] entries(m[n]@, c.pk_byte_len as int).contains(
            k,
        ) implies exists|values: Seq<Option<Seq<u8>>>| holds_values(c, k, values) by {
        assert(c.data_pages@.contains(n));
        let at = choose|at: int| 0 <= at < c.data_pages@.len() && c.data_pages@[at] == n;
        lemma_page_visits_some(img, c, last_txn, gens, c.data_pages@, at);
        let pv = page_visits(img, c, last_txn, gens, n)->0;
        assert(visited_keys(pv).contains(k));
        let i = choose|i: int| 0 <= i < visited_keys(pv).len() && visited_keys(pv)[i] == k;
        let j = lemma_key_from(pv, i);
        assert(pv.contains(pv[j]));
        lemma_page_visit_from(img, c, last_txn, gens, n, pv[j]);
        let q = choose|q: int|
            {
                &&& 0 <= q < page_records(img, n).len()
                &&& visit(
                    img,
                    c,
                    last_txn,
                    page_changed(img, gens, n),
                    page_rebuilt(img, c, gens, n),
                    #[trigger] page_records(img, n)[q],
                ) == Some(pv[j])
            };
        let p = img.page(n as int);
        assert(n as int * img.page_size >= 0) by (nonlinear_arith)
            requires
                0 <= n as int,
                1024 <= img.page_size,
        ;
        assert(p.len() == img.page_size);
        lemma_records_len(p, 0, slot_count(p), q);
        law_collected_key_is_read(
            img,
            c,
            last_txn,
            page_changed(img, gens, n),
            page_rebuilt(img, c, gens, n),
            page_records(img, n)[q],
            pv[j],
        );
    }
}

proof fn lemma_page_visits_some(
    img: Image,
    c: TableCache,
    last_txn: u64,
    gens: Map<u32, u32>,
    dps: Seq<u32>,
    k: int,
)
    requires
        scan_visits(img, c, last_txn, gens, dps) is Some,
        0 <= k < dps.len(),
    ensures
        page_visits(img, c, last_txn, gens, dps[k]) is Some,
    decreases dps.len(),
{
    if k > 0 {
        assert(dps.skip(1)[k - 1] == dps[k]);
        lemma_page_visits_some(img, c, last_txn, gens, dps.skip(1), k - 1);
    }
}

/// Whether `values` are those of all columns of a row that is alive and that a new
/// transaction wrote.
pub open spec fn is_changed_row(
    c: TableCache,
    last_txn: u64,
    values: Seq<Option<Seq<u8>>>,
) -> bool {
    exists|raw: Seq<u8>| #[trigger] is_row_of(c, last_txn, values, raw)
}

/// Whether `values` are those of the record `raw`, if that is alive and new.
pub open spec fn is_row_of(
    c: TableCache,
    last_txn: u64,
    values: Seq<Option<Seq<u8>>>,
    raw: Seq<u8>,
) -> bool {
    &&& raw.len() >= 13
    &&& raw[10] % 2 == 0
    &&& transaction(raw) is Some && transaction(raw)->0 > last_txn
    &&& any_version(raw) is Some
    &&& values.len() == c.slots_in(raw[12]).len()
    &&& forall|i: int|
        0 <= i < values.len() ==> #[trigger] values[i] == slot_value(
            any_version(raw)->0,
            c.slots_in(raw[12])[i].column(),
        )
}

/// The upsert stream of a scan is a stream of rows: it is read back as so many rows as the
/// scan counts, each with a field for every column.
pub proof fn law_upsert_stream_is_rows(
    r: ScanOutput,
    img: Image,
    c: TableCache,
    last_txn: u64,
    gens: Map<u32, u32>,
)
    requires
        img.wf(),
        scan_visits(img, c, last_txn, gens, c.data_pages@) is Some,
        scan_shows(r, img, c, last_txn, gens),
        forall|fmt: u8| c.n_fields == (#[trigger] c.slots_in(fmt)).len(),
    ensures
        match read_stream(upsert_stream(img, c, last_txn, gens)) {
            Some(rows) => {
                &&& rows.len() == r.upserts
                &&& forall|i: int|
                    0 <= i < rows.len() ==> is_changed_row(c, last_txn, #[trigger] rows[i])
            },
            None => false,
        },
{
    let visits = scan_visits(img, c, last_txn, gens, c.data_pages@)->0;
    let rows = found(visits, last_txn).upserts;
    assert(upsert_stream(img, c, last_txn, gens) =~= copy_stream(rows));
    let values = Seq::new(rows.len(), |i: int| read_row(rows[i])->0);
    assert forall|i: int| 0 <= i < rows.len() implies read_row(#[trigger] rows[i]) == Some(
        values[i],
    ) && is_changed_row(c, last_txn, values[i]) by {
        let j = lemma_upsert_from(visits, last_txn, i);
        let (raw, n) = lemma_visited_record(img, c, last_txn, gens, c.data_pages@, j);
        let changed = page_changed(img, gens, n);
        let rebuilt = page_rebuilt(img, c, gens, n);
        law_new_rows_are_reported(img, c, last_txn, changed, rebuilt, raw, visits[j]);
        assert(c.n_fields == c.slots_in(raw[12]).len());
        law_sent_row_is_whole(img, c, last_txn, changed, rebuilt, raw, visits[j]);
        assert(is_row_of(c, last_txn, values[i], raw));
    }
    law_stream_is_read(rows, values);
}

// ── The columns of a table ───────────────────────────────────────────────────

proof fn lemma_column_named(cols: Seq<(usize, Seq<char>)>, name: Seq<char>, i: int)
    requires
        0 <= i <= cols.len() <= usize::MAX,
    ensures
        match column_named(cols, name, i) {
            Some(j) => {
                &&& i <= j < cols.len()
                &&& eq_ascii_fold(cols[j as int].1, name)
                &&& forall|k: int| i <= k < j ==> !eq_ascii_fold((#[trigger] cols[k]).1, name)
            },
            None => forall|k: int|
                i <= k < cols.len() ==> !eq_ascii_fold((#[trigger] cols[k]).1, name),
        },
    decreases cols.len() - i,
{
    if i < cols.len() && !eq_ascii_fold(cols[i].1, name) {
        lemma_column_named(cols, name, i + 1);
    }
}

/// What is kept of a table counts its columns and those of its key, in every format, and
/// knows where each column of the key is: at the first column of that name.
pub proof fn law_columns_are_counted(
    c: TableCache,
    img: Image,
    table: Seq<char>,
    pk_fields: Seq<Seq<char>>,
    snapshot: Option<Map<u32, Vec<u8>>>,
    rid: u16,
    descs: Seq<Desc>,
    cols: Seq<(usize, Seq<char>)>,
)
    requires
        cache_shows(c, img, table, pk_fields, snapshot),
        img.layout(table) == Some(
            Ok::<(u16, Seq<Desc>, Seq<(usize, Seq<char>)>), OdsError>((rid, descs, cols)),
        ),
        cols.len() <= 32_767,
        pk_fields.len() <= 32_767,
    ensures
        c.n_fields == cols.len(),
        c.n_pk == pk_fields.len(),
        c.pk_indices@.len() == pk_fields.len(),
        forall|fmt: u8| (#[trigger] c.slots_in(fmt)).len() == cols.len(),
        forall|i: int|
            0 <= i < pk_fields.len() ==> match #[trigger] c.pk_indices@[i] {
                Some(j) => {
                    &&& j < cols.len()
                    &&& eq_ascii_fold(cols[j as int].1, pk_fields[i])
                    &&& forall|k: int|
                        0 <= k < j ==> !eq_ascii_fold((#[trigger] cols[k]).1, pk_fields[i])
                },
                None => forall|k: int|
                    0 <= k < cols.len() ==> !eq_ascii_fold((#[trigger] cols[k]).1, pk_fields[i]),
            },
{
    assert forall|fmt: u8| (#[trigger] c.slots_in(fmt)).len() == cols.len() by {
        let ver: u16 = fmt as u16;
        assert(img.format(rid, ver) is Some || img.format(rid, ver) is None);
    }
    assert forall|i: int| 0 <= i < pk_fields.len() implies match #[trigger] c.pk_indices@[i] {
        Some(j) => {
            &&& j < cols.len()
            &&& eq_ascii_fold(cols[j as int].1, pk_fields[i])
            &&& forall|k: int|
                0 <= k < j ==> !eq_ascii_fold((#[trigger] cols[k]).1, pk_fields[i])
        },
        None => forall|k: int|
            0 <= k < cols.len() ==> !eq_ascii_fold((#[trigger] cols[k]).1, pk_fields[i]),
    } by {
        lemma_column_named(cols, pk_fields[i], 0);
    }
}

/// The columns of a format are told by the descriptors of that format, and where the format
/// is not known by those of the latest.
pub proof fn law_record_is_read_by_its_format(
    c: TableCache,
    img: Image,
    table: Seq<char>,
    pk_fields: Seq<Seq<char>>,
    snapshot: Option<Map<u32, Vec<u8>>>,
    rid: u16,
    latest: Seq<Desc>,
    cols: Seq<(usize, Seq<char>)>,
    fmt: u8,
    i: int,
)
    requires
        cache_shows(c, img, table, pk_fields, snapshot),
        img.layout(table) == Some(
            Ok::<(u16, Seq<Desc>, Seq<(usize, Seq<char>)>), OdsError>((rid, latest, cols)),
        ),
        0 <= i < cols.len(),
    ensures
        ({
            let d = match img.format(rid, fmt as u16) {
                Some(Ok(d)) => d,
                _ => latest,
            };
            cols[i].0 < d.len() ==> c.slots_in(fmt)[i].desc == d[cols[i].0 as int]
        }),
{
    let ver: u16 = fmt as u16;
    assert(img.format(rid, ver) is Some || img.format(rid, ver) is None);
}

// ── Keys ─────────────────────────────────────────────────────────────────────

/// Whether the values of a type all have one length when they are encoded: whole numbers,
/// floats, dates, times and truth values do, texts and blobs do not.
pub open spec fn is_fixed_type(dtype: u8) -> bool {
    8 <= dtype <= 16 || dtype == 19 || dtype == 21 || dtype == 25 || dtype == 26
}

proof fn lemma_key_len_grows(pk: Seq<Option<usize>>, slots: Seq<SlotInfo>, n: int)
    requires
        0 < n,
    ensures
        key_len(pk, slots, n) >= 4,
{
}

/// The keys of a table are tracked exactly where the key has columns, all of them are known and
/// all are of a type of fixed length.
pub proof fn law_fixed_keys_are_tracked(pk: Seq<Option<usize>>, slots: Seq<SlotInfo>)
    ensures
        key_stride(pk, slots) > 0 <==> pk.len() > 0 && forall|i: int|
            0 <= i < pk.len() ==> (#[trigger] pk[i]) is Some && is_fixed_type(
                slots[pk[i]->0 as int].desc.dtype,
            ),
{
    let all = forall|i: int|
        0 <= i < pk.len() ==> (#[trigger] pk[i]) is Some && is_fixed_type(
            slots[pk[i]->0 as int].desc.dtype,
        );
    if pk.len() > 0 {
        lemma_key_len_grows(pk, slots, pk.len() as int);
    }
    if all {
        assert(fixed_key(pk, slots, pk.len() as int));
    }
    if fixed_key(pk, slots, pk.len() as int) {
        assert forall|i: int| 0 <= i < pk.len() implies (#[trigger] pk[i]) is Some && is_fixed_type(
            slots[pk[i]->0 as int].desc.dtype,
        ) by {
            assert(fixed_len(slots[pk[i]->0 as int].desc) is Some);
        }
    }
}

/// The keys of a page are collected where the page has changed, and on the first scan those of
/// every page.
pub proof fn law_pages_whose_keys_are_collected(
    img: Image,
    c: TableCache,
    gens: Map<u32, u32>,
    n: u32,
)
    ensures
        c.pk_byte_len == 0 ==> !page_rebuilt(img, c, gens, n),
        c.pk_byte_len > 0 && c.prev_pks_per_page@.is_empty() ==> page_rebuilt(img, c, gens, n),
        c.pk_byte_len > 0 && !c.prev_pks_per_page@.is_empty() ==> page_rebuilt(img, c, gens, n)
            == page_changed(img, gens, n),
{
}

/// The key of every row that gives one is among the keys of its page, and they stand in the
/// order of their bytes, each once.
pub proof fn law_page_keys_are_those_of_its_rows(
    r: ScanOutput,
    img: Image,
    c: TableCache,
    last_txn: u64,
    gens: Map<u32, u32>,
    n: u32,
    j: int,
)
    requires
        scan_visits(img, c, last_txn, gens, c.data_pages@) is Some,
        scan_shows(r, img, c, last_txn, gens),
        c.data_pages@.contains(n),
        img.page(n as int)[0] == 5,
        page_rebuilt(img, c, gens, n),
        0 <= j < page_visits(img, c, last_txn, gens, n)->0.len(),
    ensures
        r.new_pks_per_page@.contains_key(n),
        ({
            let flat = r.new_pks_per_page@[n]@;
            let keys = entries(flat, c.pk_byte_len as int);
            let v = page_visits(img, c, last_txn, gens, n)->0[j];
            &&& v.key is Some ==> keys.contains(v.key->0)
            &&& forall|i: int, k: int|
                0 <= i < k < keys.len() ==> bytes_le(#[trigger] keys[i], #[trigger] keys[k])
                    && keys[i] != keys[k]
            &&& flat.len() == c.pk_byte_len * keys.len()
        }),
{
    let at = choose|at: int| 0 <= at < c.data_pages@.len() && c.data_pages@[at] == n;
    lemma_page_visits_some(img, c, last_txn, gens, c.data_pages@, at);
    let pv = page_visits(img, c, last_txn, gens, n)->0;
    let flat = r.new_pks_per_page@[n]@;
    assert(is_data_page(img, n));
    assert(r.new_pks_per_page@.contains_key(n));
    assert(holds_keys(flat, visited_keys(pv), c.pk_byte_len as int));
    if pv[j].key is Some {
        lemma_key_visited(pv, j);
        assert(entries(flat, c.pk_byte_len as int).contains(pv[j].key->0));
    }
}

proof fn lemma_key_visited(visits: Seq<Visit>, j: int)
    requires
        0 <= j < visits.len(),
        visits[j].key is Some,
    ensures
        visited_keys(visits).contains(visits[j].key->0),
    decreases visits.len(),
{
    let front = visits.drop_last();
    let all = visited_keys(visits);
    if j < front.len() {
        assert(front[j] == visits[j]);
        lemma_key_visited(front, j);
        let k = choose|k: int|
            0 <= k < visited_keys(front).len() && visited_keys(front)[k] == visits[j].key->0;
        assert(all[k] == visits[j].key->0);
    } else {
        assert(all.last() == visits[j].key->0);
    }
}

/// What is kept of a table names its columns as statements do, and begins with the keys that
/// were saved where they can be used.
pub proof fn law_cache_is_of_its_table(
    c: TableCache,
    img: Image,
    table: Seq<char>,
    pk_fields: Seq<Seq<char>>,
    snapshot: Option<Map<u32, Vec<u8>>>,
    rid: u16,
    descs: Seq<Desc>,
    cols: Seq<(usize, Seq<char>)>,
    i: int,
)
    requires
        cache_shows(c, img, table, pk_fields, snapshot),
        img.layout(table) == Some(
            Ok::<(u16, Seq<Desc>, Seq<(usize, Seq<char>)>), OdsError>((rid, descs, cols)),
        ),
    ensures
        c.relation_id == rid,
        c.col_names@.len() == cols.len(),
        0 <= i < cols.len() ==> c.col_names@[i]@ == sql_name(cols[i].1),
        c.pk_col_names@.len() == pk_fields.len(),
        0 <= i < pk_fields.len() ==> c.pk_col_names@[i]@ == sql_name(pk_fields[i]),
        c.pk_byte_len > 0 && snapshot is Some ==> c.prev_pks_per_page@ == snapshot->0,
        c.pk_byte_len == 0 || snapshot is None ==> c.prev_pks_per_page@.is_empty(),
        c.first_pp == img.first_pp(rid as int)->0,
        c.first_pp is Some ==> img.data_pages(c.first_pp->0 as int) == Some(c.data_pages@),
{
    assert(texts(c.col_names@).len() == cols.len());
    assert(texts(c.pk_col_names@).len() == pk_fields.len());
    if 0 <= i < cols.len() {
        law_quoted(lowercase(cols[i].1));
        assert(texts(c.col_names@)[i] == c.col_names@[i]@);
    }
    if 0 <= i < pk_fields.len() {
        law_quoted(lowercase(pk_fields[i]));
        assert(texts(c.pk_col_names@)[i] == c.pk_col_names@[i]@);
    }
}

} // verus!
