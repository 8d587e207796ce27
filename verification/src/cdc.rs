//! Change capture: what happened to a table since a transaction.
//!
//! A scan walks the data pages of a table. A page whose generation did not change since
//! the last scan has no new rows. A deleted row leaves a stub behind whose key is found
//! through the chain of old versions. A row that was cleaned up at once leaves no stub:
//! it is found by comparing the keys on the changed pages with the keys that were there
//! before.
use crate::bytes::{be16, le16, le32};
use crate::extract::{
    columns_bytes, field_value, null_mask, row_bytes, row_ok, slot_value, zero_desc, CopySlot,
};
use crate::flatpk::{entries, increasing, same_members};
use crate::maps::is_walk;
use crate::ods::{
    behind, flagged, page_scan, payload, slot, slot_count, transaction, Desc, Image, DTYPE_BOOLEAN,
    DTYPE_DOUBLE, DTYPE_D_FLOAT, DTYPE_INT64, DTYPE_LONG, DTYPE_QUAD, DTYPE_REAL, DTYPE_SHORT,
    DTYPE_SQL_DATE, DTYPE_SQL_TIME, DTYPE_SQL_TIME_TZ, DTYPE_TIMESTAMP, DTYPE_TIMESTAMP_TZ,
    PAG_DATA, RHD_BLOB, RHD_CHAIN, RHD_DELETED, RHD_FRAGMENT, RHD_INCOMPLETE,
};
use std::collections::HashMap;
use vstd::prelude::*;

verus! {

// ── Columns ──────────────────────────────────────────────────────────────────

/// A column in the order of the target table, in one record format.
#[derive(Debug, Clone, Copy, PartialEq, Eq, Structural)]
pub struct SlotInfo {
    pub desc: Desc,
    pub null_byte: usize,
    pub null_mask: u8,
}

impl SlotInfo {
    /// The column as the encoder sees it.
    pub open spec fn column(self) -> CopySlot {
        CopySlot {
            desc: self.desc,
            null_byte: self.null_byte,
            null_mask: self.null_mask,
            present: true,
        }
    }
}

pub open spec fn slot_info(fid: usize, descs: Seq<Desc>) -> SlotInfo {
    SlotInfo {
        desc: if fid < descs.len() {
            descs[fid as int]
        } else {
            zero_desc()
        },
        null_byte: (fid / 8) as usize,
        null_mask: null_mask(fid),
    }
}

/// The columns of a table in one record format. A column that the format does not know
/// gets a descriptor of type 0, which is encoded as NULL.
pub fn build_slots(field_order: &[(usize, String)], descs: &[Desc]) -> (r: Vec<SlotInfo>)
    ensures
        r@.len() == field_order@.len(),
        forall|i: int|
            0 <= i < r@.len() ==> #[trigger] r@[i] == slot_info(field_order@[i].0, descs@),
{
    let mut out: Vec<SlotInfo> = Vec::new();
    let mut i: usize = 0;
    while i < field_order.len()
        invariant
            i <= field_order@.len(),
            out@.len() == i,
            forall|k: int|
                0 <= k < i ==> #[trigger] out@[k] == slot_info(field_order@[k].0, descs@),
        decreases field_order@.len() - i,
    {
        let fid: usize = field_order[i].0;
        let desc: Desc = if fid < descs.len() {
            descs[fid]
        } else {
            Desc::default_zero()
        };
        out.push(SlotInfo { desc, null_byte: fid / 8, null_mask: 1u8 << ((fid % 8) as u8) });
        i = i + 1;
    }
    out
}

/// A column that was added after a record was written is NULL in it.
pub proof fn law_added_column_is_null(fid: usize, descs: Seq<Desc>, rec: Seq<u8>)
    requires
        fid >= descs.len(),
    ensures
        slot_value(rec, slot_info(fid, descs).column()) is None,
{
}

// ── Keys of fixed length ─────────────────────────────────────────────────────

/// The length of an encoded value; `None` where it depends on the value.
pub open spec fn fixed_len(desc: Desc) -> Option<nat> {
    let t = desc.dtype;
    if t == DTYPE_SHORT {
        Some(
            if desc.scale == 0 {
                2
            } else {
                8
            },
        )
    } else if t == DTYPE_LONG {
        Some(
            if desc.scale == 0 {
                4
            } else {
                8
            },
        )
    } else if t == DTYPE_INT64 || t == DTYPE_QUAD || t == DTYPE_DOUBLE || t == DTYPE_D_FLOAT || t
        == DTYPE_SQL_TIME || t == DTYPE_SQL_TIME_TZ || t == DTYPE_TIMESTAMP || t
        == DTYPE_TIMESTAMP_TZ {
        Some(8)
    } else if t == DTYPE_REAL || t == DTYPE_SQL_DATE {
        Some(4)
    } else if t == DTYPE_BOOLEAN {
        Some(1)
    } else {
        None
    }
}

/// Whether the first `n` columns of a key are known and of fixed length.
pub open spec fn fixed_key(pk: Seq<Option<usize>>, slots: Seq<SlotInfo>, n: int) -> bool {
    forall|i: int|
        0 <= i < n ==> (#[trigger] pk[i]) is Some && fixed_len(slots[pk[i]->0 as int].desc) is Some
}

/// The length of the first `n` columns of a key, each behind its length.
pub open spec fn key_len(pk: Seq<Option<usize>>, slots: Seq<SlotInfo>, n: int) -> nat
    decreases n,
{
    if n <= 0 {
        0
    } else {
        key_len(pk, slots, n - 1) + 4 + fixed_len(slots[pk[n - 1]->0 as int].desc)->0
    }
}

/// The length of an encoded key, 0 where it is not fixed.
pub open spec fn key_stride(pk: Seq<Option<usize>>, slots: Seq<SlotInfo>) -> nat {
    if fixed_key(pk, slots, pk.len() as int) {
        key_len(pk, slots, pk.len() as int)
    } else {
        0
    }
}

/// The length of an encoded key; 0 if a column of it is of variable length or unknown,
/// which turns the tracking of keys off for the table.
pub fn pk_pgcopy_stride(pk_indices: &[Option<usize>], slots: &[SlotInfo]) -> (r: usize)
    requires
        forall|i: int|
            0 <= i < pk_indices@.len() && fixed_key(pk_indices@, slots@, i) && (
            #[trigger] pk_indices@[i]) is Some ==> pk_indices@[i]->0 < slots@.len(),
        12 * pk_indices@.len() <= usize::MAX,
    ensures
        r == key_stride(pk_indices@, slots@),
{
    let mut total: usize = 0;
    let mut i: usize = 0;
    while i < pk_indices.len()
        invariant
            i <= pk_indices@.len(),
            forall|i: int|
                0 <= i < pk_indices@.len() && fixed_key(pk_indices@, slots@, i) && (
                #[trigger] pk_indices@[i]) is Some ==> pk_indices@[i]->0 < slots@.len(),
            12 * pk_indices@.len() <= usize::MAX,
            total <= 12 * i,
            fixed_key(pk_indices@, slots@, i as int),
            total == key_len(pk_indices@, slots@, i as int),
        decreases pk_indices@.len() - i,
    {
        let pi: usize = match pk_indices[i] {
            Some(pi) => pi,
            None => {
                assert(pk_indices@[i as int] is None);
                return 0;
            },
        };
        let desc: Desc = slots[pi].desc;
        let payload: usize = match desc.dtype {
            DTYPE_SHORT => if desc.scale == 0 {
                2
            } else {
                8
            },
            DTYPE_LONG => if desc.scale == 0 {
                4
            } else {
                8
            },
            DTYPE_INT64 | DTYPE_QUAD => 8,
            DTYPE_REAL => 4,
            DTYPE_DOUBLE | DTYPE_D_FLOAT => 8,
            DTYPE_SQL_DATE => 4,
            DTYPE_SQL_TIME | DTYPE_SQL_TIME_TZ => 8,
            DTYPE_TIMESTAMP | DTYPE_TIMESTAMP_TZ => 8,
            DTYPE_BOOLEAN => 1,
            _ => {
                assert(fixed_len(slots@[pk_indices@[i as int]->0 as int].desc) is None);
                return 0;
            },
        };
        total = total + 4 + payload;
        i = i + 1;
    }
    total
}

/// The encoded values of a fixed-length type have the length that the type says.
pub proof fn lemma_fixed_value_len(rec: Seq<u8>, desc: Desc)
    requires
        fixed_len(desc) is Some,
        field_value(rec, desc) is Some,
    ensures
        field_value(rec, desc)->0.len() == fixed_len(desc)->0,
{
}

// ── The table cache ──────────────────────────────────────────────────────────

/// What is kept of a table from scan to scan.
pub struct TableCache {
    pub relation_id: u16,
    /// The columns in the latest format.
    pub slots: Vec<SlotInfo>,
    /// The columns by format; `None` where there is no such format.
    pub fmt_slots: Vec<Option<Vec<SlotInfo>>>,
    pub col_names: Vec<String>,
    pub pk_col_names: Vec<String>,
    pub n_fields: i16,
    pub n_pk: i16,
    /// Where the columns of the key are among the columns, `None` for an unknown one.
    pub pk_indices: Vec<Option<usize>>,
    pub first_pp: Option<u32>,
    pub pp_gen: u32,
    pub data_pages: Vec<u32>,
    /// The encoded keys by page, one behind the other.
    pub prev_pks_per_page: HashMap<u32, Vec<u8>>,
    /// Whether all columns of the key are known.
    pub pk_tracked: bool,
    /// The length of an encoded key, 0 where it is not fixed.
    pub pk_byte_len: usize,
}

impl TableCache {
    /// The columns of a record of the format `fmt`; those of the latest format where the
    /// format is not known.
    pub open spec fn slots_in(self, fmt: u8) -> Seq<SlotInfo> {
        if fmt < self.fmt_slots@.len() && self.fmt_slots@[fmt as int] is Some {
            self.fmt_slots@[fmt as int]->0@
        } else {
            self.slots@
        }
    }

    /// The columns of a record as the encoder sees them.
    pub open spec fn columns(self, fmt: u8) -> Seq<CopySlot> {
        self.slots_in(fmt).map_values(|s: SlotInfo| s.column())
    }

    /// The columns of the key as the encoder sees them.
    pub open spec fn key_columns(self, fmt: u8) -> Seq<CopySlot> {
        Seq::new(
            self.pk_indices@.len(),
            |i: int| self.slots_in(fmt)[self.pk_indices@[i]->0 as int].column(),
        )
    }

    /// The key of a record.
    pub open spec fn key_bytes(self, rec: Seq<u8>, fmt: u8) -> Seq<u8> {
        columns_bytes(rec, self.key_columns(fmt), self.pk_indices@.len() as int)
    }

    /// Whether the key columns that are known exist in every format, and `pk_tracked` and
    /// `pk_byte_len` say what the key columns are.
    pub open spec fn wf(self) -> bool {
        &&& self.pk_tracked <==> (forall|i: int|
            0 <= i < self.pk_indices@.len() ==> (#[trigger] self.pk_indices@[i]) is Some)
        &&& self.pk_byte_len > 0 ==> self.pk_tracked
        &&& forall|i: int, fmt: u8|
            0 <= i < self.pk_indices@.len() && (#[trigger] self.pk_indices@[i]) is Some ==> (
            #[trigger] self.slots_in(fmt)).len() > self.pk_indices@[i]->0
    }

    /// Whether no keys are known yet.
    pub open spec fn first_cycle(self) -> bool {
        self.pk_byte_len > 0 && self.prev_pks_per_page@.is_empty()
    }

    pub fn slots_for(&self, fmt: u8) -> (r: &[SlotInfo])
        ensures
            r@ == self.slots_in(fmt),
    {
        if (fmt as usize) < self.fmt_slots.len() {
            if let Some(s) = &self.fmt_slots[fmt as usize] {
                return s.as_slice();
            }
        }
        self.slots.as_slice()
    }
}

/// Every non-NULL key of a record has the length that the columns of the latest format
/// give it, if its own format has the same types in the key.
pub proof fn lemma_key_len(c: TableCache, rec: Seq<u8>, fmt: u8, n: int)
    requires
        0 <= n <= c.pk_indices@.len(),
        fixed_key(c.pk_indices@, c.slots_in(fmt), n),
        forall|i: int|
            0 <= i < n ==> slot_value(rec, #[trigger] c.key_columns(fmt)[i]) is Some,
    ensures
        columns_bytes(rec, c.key_columns(fmt), n).len() == key_len(
            c.pk_indices@,
            c.slots_in(fmt),
            n,
        ),
    decreases n,
{
    if n > 0 {
        lemma_key_len(c, rec, fmt, n - 1);
        let col = c.key_columns(fmt)[n - 1];
        assert(slot_value(rec, col) is Some);
        assert(c.pk_indices@[n - 1] is Some);
        lemma_fixed_value_len(rec, col.desc);
    }
}

/// The length that is announced for a key is the length of its encoding, wherever no column
/// of the key is NULL.
pub proof fn law_key_has_its_stride(c: TableCache, rec: Seq<u8>, fmt: u8)
    requires
        key_stride(c.pk_indices@, c.slots_in(fmt)) > 0,
        forall|i: int|
            0 <= i < c.pk_indices@.len() ==> slot_value(
                rec,
                #[trigger] c.key_columns(fmt)[i],
            ) is Some,
    ensures
        c.key_bytes(rec, fmt).len() == key_stride(c.pk_indices@, c.slots_in(fmt)),
{
    lemma_key_len(c, rec, fmt, c.pk_indices@.len() as int);
}

// ── What a record tells ──────────────────────────────────────────────────────

/// How many old versions of a deleted row are tried.
pub const MAX_CHAIN_DEPTH: usize = 8;

/// What a scan learns from one record.
#[verifier::ext_equal]
pub struct Visit {
    /// Whether the record has a transaction that was looked at.
    pub checked: bool,
    /// The transaction, if it is new.
    pub txn: Option<u64>,
    /// The key of a live row, if the keys of the page are collected.
    pub key: Option<Seq<u8>>,
    /// The encoded row, if it is new or changed.
    pub upsert: Option<Seq<u8>>,
    /// The encoded key, if the row was deleted.
    pub delete: Option<Seq<u8>>,
}

pub open spec fn nothing() -> Visit {
    Visit { checked: false, txn: None, key: None, upsert: None, delete: None }
}

/// The data and the format of the first readable version in the chain that starts at a
/// page and slot. Records that cannot be unpacked are followed only if they are old
/// versions or deleted themselves.
pub open spec fn back_version(img: Image, page: int, line: int, depth: nat) -> Option<
    Option<(Seq<u8>, u8)>,
>
    decreases depth,
{
    if depth == 0 {
        Some(None)
    } else {
        match img.slot_raw(page, line) {
            None => None,
            Some(None) => Some(None),
            Some(Some(back)) => match any_version(back) {
                Some(rec) => Some(Some((rec, back[12]))),
                None => if back.len() < 13 || !flagged(back, RHD_CHAIN | RHD_DELETED) {
                    Some(None)
                } else {
                    back_version(img, le32(back, 4), le16(back, 8), (depth - 1) as nat)
                },
            },
        }
    }
}

/// The data of a record, whatever version it is.
pub open spec fn any_version(raw: Seq<u8>) -> Option<Seq<u8>> {
    if raw.len() < 13 || flagged(raw, RHD_FRAGMENT | RHD_INCOMPLETE | RHD_BLOB) {
        None
    } else {
        payload(raw)
    }
}

/// The key of a live record, if it has the length of a key: a NULL in it makes it
/// shorter. `None` where it cannot be encoded.
pub open spec fn key_of(c: TableCache, raw: Seq<u8>) -> Option<Option<Seq<u8>>> {
    match any_version(raw) {
        None => Some(None),
        Some(rec) => if !row_ok(rec, c.key_columns(raw[12])) {
            None
        } else if c.key_bytes(rec, raw[12]).len() == c.pk_byte_len {
            Some(Some(c.key_bytes(rec, raw[12])))
        } else {
            Some(None)
        },
    }
}

/// The row of a live record.
pub open spec fn upsert_row(c: TableCache, raw: Seq<u8>) -> Option<Option<Seq<u8>>> {
    match any_version(raw) {
        None => Some(None),
        Some(rec) => if row_ok(rec, c.columns(raw[12])) {
            Some(Some(row_bytes(rec, c.columns(raw[12]), c.n_fields)))
        } else {
            None
        },
    }
}

/// The key of a deleted record. A stub without an old version belongs to a row that was
/// never seen.
pub open spec fn delete_row(img: Image, c: TableCache, raw: Seq<u8>) -> Option<Option<Seq<u8>>> {
    if any_version(raw) is None || !c.pk_tracked || le32(raw, 4) == 0 {
        Some(None)
    } else {
        match back_version(img, le32(raw, 4), le16(raw, 8), MAX_CHAIN_DEPTH as nat) {
            None => None,
            Some(None) => Some(None),
            Some(Some((rec, fmt))) => if row_ok(rec, c.key_columns(fmt)) {
                Some(Some(be16(c.n_pk as int) + c.key_bytes(rec, fmt)))
            } else {
                None
            },
        }
    }
}

/// What the record `raw` tells. The page is `changed` if its generation is new; its keys
/// are collected if `rebuild` is set. On a page where neither holds only deleted records
/// are looked at. `None` where following the record leaves the file or it cannot be
/// encoded.
pub open spec fn visit(
    img: Image,
    c: TableCache,
    last_txn: u64,
    changed: bool,
    rebuild: bool,
    raw: Seq<u8>,
) -> Option<Visit> {
    if raw.len() < 13 || (!changed && !rebuild && !flagged(raw, RHD_DELETED)) || transaction(
        raw,
    ) is None {
        Some(nothing())
    } else {
        let txn = transaction(raw)->0;
        let is_new = txn > last_txn;
        let deleted = flagged(raw, RHD_DELETED);
        let key = if rebuild && !deleted && !flagged(raw, RHD_CHAIN) {
            key_of(c, raw)
        } else {
            Some(None)
        };
        let delete = if is_new && deleted {
            delete_row(img, c, raw)
        } else {
            Some(None)
        };
        let upsert = if is_new && !deleted && changed {
            upsert_row(c, raw)
        } else {
            Some(None)
        };
        if key is None || delete is None || upsert is None {
            None
        } else {
            Some(
                Visit {
                    checked: true,
                    txn: if is_new {
                        Some(txn)
                    } else {
                        None
                    },
                    key: key->0,
                    upsert: upsert->0,
                    delete: delete->0,
                },
            )
        }
    }
}

pub open spec fn visit_of(
    img: Image,
    c: TableCache,
    last_txn: u64,
    changed: bool,
    rebuild: bool,
) -> spec_fn(Seq<u8>) -> Option<Option<Visit>> {
    |raw: Seq<u8>|
        match visit(img, c, last_txn, changed, rebuild, raw) {
            Some(v) => Some(Some(v)),
            None => None,
        }
}

/// What a scan found so far.
#[verifier::ext_equal]
pub struct Found {
    pub upserts: Seq<Seq<u8>>,
    pub deletes: Seq<Seq<u8>>,
    pub max_txn: u64,
    pub checked: nat,
}

impl Found {
    pub open spec fn with(self, v: Visit) -> Found {
        Found {
            upserts: if v.upsert is Some {
                self.upserts.push(v.upsert->0)
            } else {
                self.upserts
            },
            deletes: if v.delete is Some {
                self.deletes.push(v.delete->0)
            } else {
                self.deletes
            },
            max_txn: if v.txn is Some && v.txn->0 > self.max_txn {
                v.txn->0
            } else {
                self.max_txn
            },
            checked: if v.checked {
                self.checked + 1
            } else {
                self.checked
            },
        }
    }
}

/// What the records that were visited add up to.
pub open spec fn found(visits: Seq<Visit>, last_txn: u64) -> Found
    decreases visits.len(),
{
    if visits.len() == 0 {
        Found { upserts: Seq::empty(), deletes: Seq::empty(), max_txn: last_txn, checked: 0 }
    } else {
        found(visits.drop_last(), last_txn).with(visits.last())
    }
}

/// The keys among what was found.
pub open spec fn visited_keys(visits: Seq<Visit>) -> Seq<Seq<u8>>
    decreases visits.len(),
{
    if visits.len() == 0 {
        Seq::empty()
    } else if visits.last().key is Some {
        visited_keys(visits.drop_last()).push(visits.last().key->0)
    } else {
        visited_keys(visits.drop_last())
    }
}

// ── What the pages tell ──────────────────────────────────────────────────────

/// The generation of a page.
pub open spec fn page_gen(img: Image, n: u32) -> u32 {
    le32(img.page(n as int), 4) as u32
}

pub open spec fn is_data_page(img: Image, n: u32) -> bool {
    img.page(n as int)[0] == PAG_DATA
}

/// Whether the generation of a page is not the one that was seen last.
pub open spec fn page_changed(img: Image, gens: Map<u32, u32>, n: u32) -> bool {
    !(gens.contains_key(n) && gens[n] == page_gen(img, n))
}

/// Whether the keys of a page are collected: keys are tracked, and the page is new or
/// nothing is known yet.
pub open spec fn page_rebuilt(img: Image, c: TableCache, gens: Map<u32, u32>, n: u32) -> bool {
    c.pk_byte_len > 0 && (page_changed(img, gens, n) || c.first_cycle())
}

/// What the records of a page tell.
pub open spec fn page_visits(
    img: Image,
    c: TableCache,
    last_txn: u64,
    gens: Map<u32, u32>,
    n: u32,
) -> Option<Seq<Visit>> {
    if !img.has_page(n as int) {
        None
    } else if !is_data_page(img, n) {
        Some(Seq::empty())
    } else {
        let p = img.page(n as int);
        page_scan(p, 0, slot_count(p)).collect(
            visit_of(
                img,
                c,
                last_txn,
                page_changed(img, gens, n),
                page_rebuilt(img, c, gens, n),
            ),
        )
    }
}

/// What the records of the pages `dps` tell, in their order.
pub open spec fn scan_visits(
    img: Image,
    c: TableCache,
    last_txn: u64,
    gens: Map<u32, u32>,
    dps: Seq<u32>,
) -> Option<Seq<Visit>>
    decreases dps.len(),
{
    if dps.len() == 0 {
        Some(Seq::empty())
    } else {
        match page_visits(img, c, last_txn, gens, dps[0]) {
            None => None,
            Some(v) => behind(v, scan_visits(img, c, last_txn, gens, dps.skip(1))),
        }
    }
}

/// How many of the pages are data pages.
pub open spec fn data_page_count(img: Image, dps: Seq<u32>) -> nat
    decreases dps.len(),
{
    if dps.len() == 0 {
        0
    } else if is_data_page(img, dps.last()) {
        data_page_count(img, dps.drop_last()) + 1
    } else {
        data_page_count(img, dps.drop_last())
    }
}

/// How many of the pages are data pages that did not change.
pub open spec fn unchanged_count(img: Image, gens: Map<u32, u32>, dps: Seq<u32>) -> nat
    decreases dps.len(),
{
    if dps.len() == 0 {
        0
    } else if is_data_page(img, dps.last()) && !page_changed(img, gens, dps.last()) {
        unchanged_count(img, gens, dps.drop_last()) + 1
    } else {
        unchanged_count(img, gens, dps.drop_last())
    }
}

/// The generations of the pages that changed.
pub open spec fn changed_gens(img: Image, gens: Map<u32, u32>, dps: Seq<u32>) -> Map<u32, u32> {
    Map::new(
        |n: u32| dps.contains(n) && is_data_page(img, n) && page_changed(img, gens, n),
        |n: u32| page_gen(img, n),
    )
}

/// Whether `flat` holds the keys `keys`, each once and in order.
pub open spec fn holds_keys(flat: Seq<u8>, keys: Seq<Seq<u8>>, stride: int) -> bool {
    &&& flat.len() == stride * entries(flat, stride).len()
    &&& increasing(entries(flat, stride))
    &&& same_members(entries(flat, stride), keys)
}

/// Whether `m` holds the keys of those of the pages whose keys are collected.
pub open spec fn holds_page_keys(
    m: Map<u32, Vec<u8>>,
    img: Image,
    c: TableCache,
    last_txn: u64,
    gens: Map<u32, u32>,
    dps: Seq<u32>,
) -> bool {
    &&& forall|n: u32| #[trigger]
        m.contains_key(n) <==> dps.contains(n) && is_data_page(img, n) && page_rebuilt(
            img,
            c,
            gens,
            n,
        )
    &&& forall|n: u32| #[trigger]
        m.contains_key(n) ==> holds_keys(
            m[n]@,
            visited_keys(page_visits(img, c, last_txn, gens, n)->0),
            c.pk_byte_len as int,
        )
}

// ── Rows that vanished ───────────────────────────────────────────────────────

/// The key lists of the pages `w`, one behind the other.
pub open spec fn joined_flats(m: Map<u32, Vec<u8>>, w: Seq<u32>) -> Seq<u8>
    decreases w.len(),
{
    if w.len() == 0 {
        Seq::empty()
    } else {
        joined_flats(m, w.drop_last()) + m[w.last()]@
    }
}

/// The key lists of those of the pages `w` that are not in `skip`, one behind the other.
pub open spec fn joined_others(m: Map<u32, Vec<u8>>, w: Seq<u32>, skip: Set<u32>) -> Seq<u8>
    decreases w.len(),
{
    if w.len() == 0 {
        Seq::empty()
    } else if skip.contains(w.last()) {
        joined_others(m, w.drop_last(), skip)
    } else {
        joined_others(m, w.drop_last(), skip) + m[w.last()]@
    }
}

/// The keys that were on those of the pages `w` whose keys were collected anew.
pub open spec fn former_keys(
    m: Map<u32, Vec<u8>>,
    w: Seq<u32>,
    renewed: Set<u32>,
    stride: int,
) -> Seq<Seq<u8>>
    decreases w.len(),
{
    if w.len() == 0 {
        Seq::empty()
    } else if renewed.contains(w.last()) {
        former_keys(m, w.drop_last(), renewed, stride) + entries(m[w.last()]@, stride)
    } else {
        former_keys(m, w.drop_last(), renewed, stride)
    }
}

/// The keys that are not alive, each once.
pub open spec fn vanished(keys: Seq<Seq<u8>>, alive: Seq<Seq<u8>>) -> Seq<Seq<u8>>
    decreases keys.len(),
{
    if keys.len() == 0 {
        Seq::empty()
    } else {
        let before = vanished(keys.drop_last(), alive);
        if alive.contains(keys.last()) || before.contains(keys.last()) {
            before
        } else {
            before.push(keys.last())
        }
    }
}

/// What is alive: the keys of the pages that were collected anew, and the former keys of
/// all other pages. The order in which the maps are walked is `w_now` and `w_prev`.
pub open spec fn alive_keys(
    prev: Map<u32, Vec<u8>>,
    now: Map<u32, Vec<u8>>,
    w_prev: Seq<u32>,
    w_now: Seq<u32>,
    stride: int,
) -> Seq<Seq<u8>> {
    entries(joined_flats(now, w_now) + joined_others(prev, w_prev, now.dom()), stride)
}

/// Whether `gone` are the keys that vanished. The maps are walked by ascending page numbers.
pub open spec fn are_vanished(
    gone: Seq<Seq<u8>>,
    prev: Map<u32, Vec<u8>>,
    now: Map<u32, Vec<u8>>,
    stride: int,
) -> bool {
    exists|w_now: Seq<u32>, w_prev: Seq<u32>, w_old: Seq<u32>|
        {
            &&& is_walk(w_now, now.dom())
            &&& is_walk(w_prev, prev.dom())
            &&& is_walk(w_old, prev.dom())
            &&& gone == vanished(
                #[trigger] former_keys(prev, w_old, now.dom(), stride),
                #[trigger] alive_keys(prev, now, w_prev, w_now, stride),
            )
        }
}

/// Whether rows can have vanished: keys are tracked, some are known, and a page changed.
pub open spec fn may_vanish(c: TableCache, now: Map<u32, Vec<u8>>) -> bool {
    c.pk_byte_len > 0 && !c.first_cycle() && !now.is_empty()
}

/// The rows of a list of keys.
pub open spec fn key_rows(keys: Seq<Seq<u8>>, n_pk: i16) -> Seq<Seq<u8>> {
    keys.map_values(|k: Seq<u8>| be16(n_pk as int) + k)
}

} // verus!
