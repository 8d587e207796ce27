//! Whether a database can be read: a file that is cut off or damaged may lead outside
//! itself.
//!
//! The functions that read a database ask that they need not read outside the file. Here that
//! is found out beforehand.
use crate::blob::{format_in, pick_format, BlobId, MAX_BLOB_PAGES};
use crate::bytes::{get_u16, get_u32, get_u64};
use crate::catalog::{column_in, constraint_in, in_meta, segment_in, table_in};
use crate::extract::{field_ids, CopyRows};
use crate::ods::{
    data_of, flagged, fragment_payload, meta_of, page_scan, slot_listed, Image, OdsReader, Scan,
    SlotCursor, MAX_FRAGMENTS, PAG_DATA, PAG_POINTER, RHD_BLOB, RHD_CHAIN, RHD_DELETED,
    RHD_FRAGMENT, RHD_INCOMPLETE,
};
use crate::text::uppercase;
use vstd::prelude::*;

verus! {

// ── What it means ────────────────────────────────────────────────────────────

impl Image {
    /// Whether every record of the relation whose first pointer page is `pp` can be visited
    /// and unpacked.
    pub open spec fn records_whole(self, pp: int) -> bool {
        &&& !self.relation(pp).fault
        &&& forall|i: int|
            0 <= i < self.relation(pp).recs.len() ==> self.unpack_meta(
                #[trigger] self.relation(pp).recs[i],
            ) is Some
    }

    /// Whether a system relation can be read to its end, if it is there.
    pub open spec fn relation_whole(self, rid: int) -> bool {
        match self.first_pp(rid) {
            None => false,
            Some(None) => true,
            Some(Some(pp)) => self.records_whole(pp as int),
        }
    }
}

/// A list is collected from a scan exactly where every record can be visited and looked at.
proof fn lemma_collect_total<T>(sc: Scan, f: spec_fn(Seq<u8>) -> Option<Option<T>>)
    ensures
        sc.collect(f) is Some <==> !sc.fault && forall|i: int|
            0 <= i < sc.recs.len() ==> f(#[trigger] sc.recs[i]) is Some,
    decreases sc.recs.len(),
{
    if sc.recs.len() > 0 {
        let rest = sc.rest();
        lemma_collect_total(rest, f);
        if sc.collect(f) is Some {
            assert forall|i: int| 0 <= i < sc.recs.len() implies f(#[trigger] sc.recs[i]) is Some by {
                if i > 0 {
                    assert(sc.recs[i] == rest.recs[i - 1]);
                }
            }
        }
        if forall|i: int| 0 <= i < sc.recs.len() ==> f(#[trigger] sc.recs[i]) is Some {
            assert(f(sc.recs[0]) is Some);
            assert forall|i: int| 0 <= i < rest.recs.len() implies f(
                #[trigger] rest.recs[i],
            ) is Some by {
                assert(rest.recs[i] == sc.recs[i + 1]);
            }
        }
    }
}

proof fn lemma_meta_total<T>(img: Image, pp: int, g: spec_fn(Seq<u8>) -> Option<T>)
    ensures
        img.relation(pp).collect(in_meta(img, g)) is Some <==> img.records_whole(pp),
{
    let sc = img.relation(pp);
    let f = in_meta(img, g);
    lemma_collect_total(sc, f);
    assert(forall|i: int|
        0 <= i < sc.recs.len() ==> (f(#[trigger] sc.recs[i]) is Some <==> img.unpack_meta(
            sc.recs[i],
        ) is Some));
}

/// The lists that the system relations hold can be read exactly where the relations can,
/// whatever the table and the index.
pub proof fn lemma_relations(img: Image, rid: u16, table: Seq<char>, index: Seq<char>)
    ensures
        img.tables() is Some <==> img.relation_whole(6),
        img.columns(rid, table) is Some <==> img.relation_whole(5),
        img.constraints(table) is Some <==> img.relation_whole(22),
        img.index_columns(index) is Some <==> img.relation_whole(3),
        img.formats(rid as int) is Some <==> img.relation_whole(8),
{
    let nl = img.name_len();
    if let Some(Some(pp)) = img.first_pp(6) {
        lemma_meta_total(img, pp as int, table_in(nl));
    }
    if let Some(Some(pp)) = img.first_pp(5) {
        lemma_meta_total(img, pp as int, column_in(nl, table));
    }
    if let Some(Some(pp)) = img.first_pp(22) {
        lemma_meta_total(img, pp as int, constraint_in(nl, uppercase(table)));
    }
    if let Some(Some(pp)) = img.first_pp(3) {
        lemma_meta_total(img, pp as int, segment_in(nl, uppercase(index)));
    }
    if let Some(Some(pp)) = img.first_pp(8) {
        let sc = img.relation(pp as int);
        let f = format_in(img, rid as int);
        lemma_collect_total(sc, f);
        assert(forall|i: int|
            0 <= i < sc.recs.len() ==> (f(#[trigger] sc.recs[i]) is Some <==> img.unpack_meta(
                sc.recs[i],
            ) is Some));
    }
}

// ── Finding it out ───────────────────────────────────────────────────────────

/// The directory of a page lies on it if its last entry does.
proof fn lemma_page_scan_fault(p: Seq<u8>, s: int, n: int)
    requires
        0 <= s,
    ensures
        page_scan(p, s, n).fault <==> s < n && !slot_listed(p, n - 1),
    decreases n - s,
{
    if s < n && slot_listed(p, s) {
        lemma_page_scan_fault(p, s + 1, n);
    }
}

impl<'a> OdsReader<'a> {
    /// The data pages of a relation, or `None` where they cannot be listed.
    pub fn try_data_pages(&self, first_pp: u32) -> (r: Option<Vec<u32>>)
        requires
            self.wf(),
        ensures
            match r {
                Some(v) => self@.data_pages(first_pp as int) == Some(v@),
                None => self@.data_pages(first_pp as int) is None,
            },
    {
        let ghost img = self@;
        let ghost all = img.chain(first_pp as int, img.data.len());
        let mut pp: u32 = first_pp;
        let mut left: usize = self.data.len();
        while pp != 0
            invariant_except_break
                self.wf(),
                img == self@,
                all is None <==> img.chain(pp as int, left as nat) is None,
                all == img.chain(first_pp as int, img.data.len()),
            ensures
                all is Some,
            decreases left,
        {
            if left == 0 || !self.contains_page(pp) {
                return None;
            }
            let p: &[u8] = self.page(pp);
            if p[0] != PAG_POINTER {
                break ;
            }
            let count: usize = get_u16(p, 24) as usize;
            let next: u32 = get_u32(p, 20);
            if 32 + 4 * count > p.len() {
                return None;
            }
            if p[1] % 2 == 1 || next == 0 {
                break ;
            }
            left = left - 1;
            pp = next;
        }
        Some(self.data_pages_for(first_pp))
    }

    /// Whether every page of a list lies in the file with its directory.
    pub fn pages_fit(&self, dps: &Vec<u32>) -> (r: bool)
        requires
            self.wf(),
        ensures
            r == !self@.scan(dps@).fault,
    {
        let ghost img = self@;
        let mut i: usize = 0;
        assert(dps@.skip(0) =~= dps@);
        while i < dps.len()
            invariant
                self.wf(),
                img == self@,
                i <= dps@.len(),
                img.scan(dps@).fault == img.scan(dps@.skip(i as int)).fault,
            decreases dps@.len() - i,
        {
            let n: u32 = dps[i];
            let ghost rest = dps@.skip(i as int);
            assert(rest[0] == n);
            assert(rest.skip(1) =~= dps@.skip(i + 1));
            if !self.contains_page(n) {
                return false;
            }
            let p: &[u8] = self.page(n);
            let count: usize = if p[0] == PAG_DATA {
                get_u16(p, 22) as usize
            } else {
                0
            };
            proof {
                lemma_page_scan_fault(p@, 0, count as int);
            }
            if count > 0 && 28 + 4 * (count - 1) > p.len() {
                return false;
            }
            i = i + 1;
        }
        assert(dps@.skip(i as int).len() == 0);
        true
    }

    /// Whether the fragments of a record lie in the file.
    pub fn fragments_fit(&self, head: &'a [u8]) -> (r: bool)
        requires
            self.wf(),
        ensures
            r == (self@.fragments(head@, Seq::empty(), MAX_FRAGMENTS as nat) is Some),
    {
        let ghost whole = self@.fragments(head@, Seq::empty(), MAX_FRAGMENTS as nat);
        let ghost mut out: Seq<u8> = Seq::empty();
        let mut cur: &'a [u8] = head;
        let mut left: usize = MAX_FRAGMENTS;
        while left > 0
            invariant
                self.wf(),
                whole == self@.fragments(head@, Seq::empty(), MAX_FRAGMENTS as nat),
                whole == self@.fragments(cur@, out, left as nat),
            decreases left,
        {
            if cur.len() < 13 {
                return true;
            }
            let incomplete: bool = get_u16(cur, 10) & RHD_INCOMPLETE != 0;
            if !incomplete || !self.fragment_is_sound(cur) {
                return true;
            }
            proof {
                out = out + fragment_payload(cur@)->0;
            }
            let f_page: u32 = get_u32(cur, 16);
            let f_line: usize = get_u16(cur, 20) as usize;
            if !self.slot_fits(f_page, f_line) {
                return false;
            }
            match self.read_slot_raw(f_page, f_line) {
                None => {
                    return true;
                },
                Some(next) => {
                    cur = next;
                },
            }
            left = left - 1;
        }
        true
    }

    /// Whether a fragment that is followed by another can be unpacked.
    fn fragment_is_sound(&self, cur: &'a [u8]) -> (r: bool)
        requires
            cur@.len() >= 13,
            flagged(cur@, RHD_INCOMPLETE),
        ensures
            r == (fragment_payload(cur@) is Some),
            r ==> cur@.len() > 22,
    {
        data_of(cur, 22).is_some()
    }

    /// Whether a page lies in the file with the directory entry of a slot.
    pub fn slot_fits(&self, page_num: u32, slot: usize) -> (r: bool)
        requires
            self.wf(),
        ensures
            r == (self@.slot_raw(page_num as int, slot as int) is Some),
    {
        if !self.contains_page(page_num) {
            return false;
        }
        let p: &[u8] = self.page(page_num);
        if p[0] != PAG_DATA || slot >= get_u16(p, 22) as usize {
            return true;
        }
        28 + 4 * slot <= p.len()
    }

    /// Whether the record `raw` of a system relation can be unpacked.
    pub fn record_fits(&self, raw: &'a [u8]) -> (r: bool)
        requires
            self.wf(),
        ensures
            r == (self@.unpack_meta(raw@) is Some),
    {
        if raw.len() < 13 {
            return true;
        }
        let flags: u16 = get_u16(raw, 10);
        if flags & (RHD_DELETED | RHD_FRAGMENT | RHD_BLOB) != 0 || flags & RHD_INCOMPLETE == 0 {
            return true;
        }
        self.fragments_fit(raw)
    }

    /// Whether the record `raw` of a table can be unpacked.
    pub(crate) fn live_data_fits(&self, raw: &'a [u8]) -> (r: bool)
        requires
            self.wf(),
            raw@.len() >= 13,
        ensures
            r == (self@.live_data(raw@) is Some),
    {
        let flags: u16 = get_u16(raw, 10);
        if flags & RHD_INCOMPLETE != 0 && flags & (RHD_DELETED | RHD_FRAGMENT | RHD_BLOB
            | RHD_CHAIN) == 0 {
            self.fragments_fit(raw)
        } else {
            true
        }
    }

    /// Whether every record of a relation can be visited and unpacked.
    pub fn records_are_whole(&self, first_pp: u32) -> (r: bool)
        requires
            self.wf(),
        ensures
            r == self@.records_whole(first_pp as int),
            r == (self@.relation(first_pp as int).collect(meta_of(self@)) is Some),
    {
        proof {
            lemma_collect_total(self@.relation(first_pp as int), meta_of(self@));
            assert(forall|raw: Seq<u8>| #[trigger] meta_of(self@)(raw) == self@.unpack_meta(raw));
        }
        let dps: Vec<u32> = match self.try_data_pages(first_pp) {
            Some(v) => v,
            None => {
                return false;
            },
        };
        if !self.pages_fit(&dps) {
            return false;
        }
        let ghost all = self@.relation(first_pp as int);
        let ghost mut seen: int = 0;
        let mut cur: SlotCursor = SlotCursor::new(self, first_pp);
        assert(all.recs.skip(0) =~= all.recs);
        loop
            invariant
                self.wf(),
                cur.wf(),
                cur.db() == self@,
                all == self@.relation(first_pp as int),
                all.collect(meta_of(self@)) is Some == self@.records_whole(first_pp as int),
                !all.fault,
                0 <= seen <= all.recs.len(),
                cur.left() == (Scan { recs: all.recs.skip(seen), fault: false }),
                forall|i: int| 0 <= i < seen ==> self@.unpack_meta(#[trigger] all.recs[i]) is Some,
            decreases cur.left().recs.len(),
        {
            match cur.next() {
                None => {
                    return true;
                },
                Some(raw) => {
                    assert(all.recs.skip(seen)[0] == all.recs[seen]);
                    assert(all.recs.skip(seen).skip(1) =~= all.recs.skip(seen + 1));
                    if !self.record_fits(raw) {
                        assert(self@.unpack_meta(all.recs[seen]) is None);
                        return false;
                    }
                    proof {
                        seen = seen + 1;
                    }
                },
            }
        }
    }

    /// Whether a system relation can be read to its end, if it is there.
    pub fn relation_is_whole(&self, rid: u16) -> (r: bool)
        requires
            self.wf(),
        ensures
            r == self@.relation_whole(rid as int),
    {
        match self.try_first_pp(rid) {
            None => false,
            Some(None) => true,
            Some(Some(pp)) => self.records_are_whole(pp),
        }
    }

    /// Whether the pages that a list of blob pages names lie in the file.
    fn listed_pages_fit(&self, s: &[u8], base: usize, n: usize) -> (r: bool)
        requires
            self.wf(),
            base <= 28,
            n <= MAX_BLOB_PAGES,
        ensures
            r == (self@.listed_pages(s@, base as int, 0, n as int) is Some),
    {
        let ghost all = self@.listed_pages(s@, base as int, 0, n as int);
        let mut i: usize = 0;
        while i < n
            invariant
                self.wf(),
                base <= 28,
                i <= n <= MAX_BLOB_PAGES,
                all == self@.listed_pages(s@, base as int, 0, n as int),
                all is Some == (self@.listed_pages(s@, base as int, i as int, n as int) is Some),
            decreases n - i,
        {
            if base + 4 * i + 4 > s.len() {
                return true;
            }
            let pg: u32 = get_u32(s, base + 4 * i);
            if pg == 0 {
                return true;
            }
            if !self.contains_page(pg) {
                return false;
            }
            i = i + 1;
        }
        true
    }

    /// Whether the blob whose record is `raw` can be read.
    fn blob_record_fits(&self, raw: &[u8]) -> (r: bool)
        requires
            self.wf(),
            raw@.len() >= 32,
        ensures
            r == (self@.blob_in(raw@) is Some),
    {
        let max_seq: u32 = get_u32(raw, 4);
        let new_layout: bool = self.ods_ver >= 14;
        let level: u8 = if new_layout {
            raw[27]
        } else {
            raw[12]
        };
        let length: u64 = if new_layout {
            get_u64(raw, 16)
        } else {
            get_u32(raw, 20) as u64
        };
        if length == 0 {
            return true;
        }
        if max_seq == 0 && get_u16(raw, 10) & 0x20 != 0 {
            return length <= u64::MAX - 28;
        }
        if (max_seq == 0 || level <= 1) && length > i64::MAX as u64 {
            return false;
        }
        if max_seq == 0 {
            return true;
        }
        if level == 0 {
            let n: usize = if max_seq <= 1000 {
                max_seq as usize
            } else {
                MAX_BLOB_PAGES
            };
            self.listed_pages_fit(raw, 28, n)
        } else if level == 1 {
            let lead: u32 = get_u32(raw, 28);
            if !self.contains_page(lead) {
                return false;
            }
            let ps: u64 = self.page_size as u64;
            let pages: u64 = (length + ps - 1) / ps;
            assert(pages == (length as int + self@.page_size - 1) / self@.page_size);
            let n: usize = if pages < 1 {
                1
            } else if pages <= 1000 {
                pages as usize
            } else {
                MAX_BLOB_PAGES
            };
            self.listed_pages_fit(self.page(lead), 4, n)
        } else {
            true
        }
    }

    /// Whether a blob can be read.
    pub fn blob_fits(&self, bid: BlobId) -> (r: bool)
        requires
            self.wf(),
        ensures
            r == (self@.blob(bid) is Some),
    {
        let (target_seq, target_slot): (u64, u64) = self.resolve_bid(bid);
        let pp: u32 = match self.try_first_pp(bid.relation) {
            Some(Some(pp)) => pp,
            Some(None) => {
                return true;
            },
            None => {
                return false;
            },
        };
        let dps: Vec<u32> = match self.try_data_pages(pp) {
            Some(v) => v,
            None => {
                return false;
            },
        };
        let ghost want = self@.blob(bid);
        let mut i: usize = 0;
        assert(dps@.skip(0) =~= dps@);
        while i < dps.len()
            invariant
                self.wf(),
                i <= dps@.len(),
                want == self@.blob(bid),
                target_seq == bid.number as int / self@.max_records(),
                target_slot == bid.number as int % self@.max_records(),
                want == self@.blob_on(dps@.skip(i as int), bid),
            decreases dps@.len() - i,
        {
            let n: u32 = dps[i];
            assert(dps@.skip(i as int)[0] == n);
            assert(dps@.skip(i as int).skip(1) =~= dps@.skip(i + 1));
            if !self.contains_page(n) {
                return false;
            }
            let dp: &[u8] = self.page(n);
            i = i + 1;
            if dp[0] == PAG_DATA && get_u32(dp, 16) as u64 == target_seq && target_slot < get_u16(
                dp,
                22,
            ) as u64 {
                if !self.slot_fits(n, target_slot as usize) {
                    return false;
                }
                if let Some(raw) = self.read_slot_raw(n, target_slot as usize) {
                    if raw.len() >= 32 && get_u16(raw, 10) & RHD_BLOB != 0 {
                        return self.blob_record_fits(raw);
                    }
                }
            }
        }
        true
    }

    /// Whether a format of a relation can be read.
    pub fn format_fits(&self, relation_id: u16, fmt_ver: u16) -> (r: bool)
        requires
            self.wf(),
        ensures
            r == (self@.format(relation_id, fmt_ver) is Some),
    {
        proof {
            lemma_relations(self@, relation_id, Seq::empty(), Seq::empty());
        }
        if !self.relation_is_whole(8) {
            return false;
        }
        let entries: Vec<(u16, BlobId)> = self.scan_formats(relation_id);
        if entries.len() == 0 {
            return true;
        }
        match pick_format(&entries, fmt_ver) {
            Some(bid) => self.blob_fits(bid),
            None => true,
        }
    }

    /// Whether the columns of the primary key of a table can be read.
    pub fn primary_key_fits(&self, table: &str) -> (r: bool)
        requires
            self.wf(),
        ensures
            r == (self@.primary_key(table@) is Some),
    {
        match self.try_pk_index_name(table) {
            None => false,
            Some(Err(_)) => true,
            Some(Ok(index)) => {
                proof {
                    lemma_relations(self@, 0, table@, index@);
                }
                self.relation_is_whole(3)
            },
        }
    }

    /// Whether the columns of a table can be read.
    pub fn layout_fits(&self, table: &str) -> (r: bool)
        requires
            self.wf(),
        ensures
            r == (self@.layout(table@) is Some),
    {
        let rid: u16 = match self.try_relation_id(table) {
            None => {
                return false;
            },
            Some(Err(_)) => {
                return true;
            },
            Some(Ok(rid)) => rid,
        };
        if !self.format_fits(rid, u16::MAX) {
            return false;
        }
        proof {
            lemma_relations(self@, rid, table@, Seq::empty());
        }
        self.read_format(rid, u16::MAX).is_err() || self.relation_is_whole(5)
    }

    /// Whether everything that creating and loading a table needs can be read.
    pub fn table_fits(&self, table: &str) -> (r: bool)
        requires
            self.wf(),
        ensures
            r == (self@.create_table(table@, false) is Some),
            r == (self@.create_table(table@, true) is Some),
            r == self@.loadable(table@, false),
            r == self@.loadable(table@, true),
    {
        if !self.layout_fits(table) {
            return false;
        }
        match self.try_relation_id(table) {
            Some(Ok(rid)) => self.read_format(rid, u16::MAX).is_err() || self.primary_key_fits(
                table,
            ),
            _ => true,
        }
    }

    /// Whether every row of a table can be read and encoded.
    pub fn rows_fit(&self, relation_id: u16, field_order: &[(usize, String)], n_fields: i16) -> (r:
        bool)
        requires
            self.wf(),
        ensures
            r == (self@.copy_rows(relation_id, field_ids(field_order@), n_fields) is Some),
    {
        match CopyRows::try_new(self, relation_id, field_order, n_fields) {
            Some(rows) => {
                let mut rows: CopyRows = rows;
                rows.fits()
            },
            None => false,
        }
    }
}

} // verus!
