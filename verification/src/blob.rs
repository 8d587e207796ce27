//! Blobs and the record formats that are stored in them.
use crate::bytes::{append, copy_range, get_u16, get_u32, get_u64, le16, le32, le64};
use crate::ods::{
    behind, desc_at, flagged, lemma_collect_step, slot, slot_count, slot_listed, Desc, Image,
    OdsError, OdsReader, SlotCursor, PAG_BLOB, PAG_DATA, RHD_BLOB,
};
use vstd::prelude::*;
use vstd::slice::slice_subrange;

verus! {

/// How many pages of a blob are read at most.
pub const MAX_BLOB_PAGES: usize = 1000;

/// Where a blob is stored: the relation and the number of its record.
#[derive(Clone, Copy, PartialEq, Eq, Structural, Debug)]
pub struct BlobId {
    pub relation: u16,
    pub number: u64,
}

/// The blob id in the 8 bytes at `rec[i..i + 8]`.
pub open spec fn blob_id_at(rec: Seq<u8>, i: int) -> BlobId {
    BlobId {
        relation: le16(rec, i) as u16,
        number: (0x1_0000_0000 * rec[i + 3] + le32(rec, i + 4)) as u64,
    }
}

/// The header of a blob record. Version 14 rearranged it.
pub struct BlobHeader {
    pub lead_page: int,
    pub max_sequence: int,
    pub level: u8,
    pub length: int,
    pub count: int,
}

pub open spec fn blob_header(raw: Seq<u8>, ods_ver: int) -> BlobHeader {
    if ods_ver >= 14 {
        BlobHeader {
            lead_page: le32(raw, 0),
            max_sequence: le32(raw, 4),
            level: raw[27],
            length: le64(raw, 16),
            count: le32(raw, 12),
        }
    } else {
        BlobHeader {
            lead_page: le32(raw, 0),
            max_sequence: le32(raw, 4),
            level: raw[12],
            length: le32(raw, 20),
            count: le32(raw, 16),
        }
    }
}

/// The segments, at most `n` of them, that follow each other from `pos` on, each behind
/// its length. A segment that is cut off ends the list.
pub open spec fn segments(raw: Seq<u8>, pos: int, n: int) -> Seq<u8>
    decreases n,
{
    if n <= 0 || pos + 2 > raw.len() || pos + 2 + le16(raw, pos) > raw.len() {
        Seq::empty()
    } else {
        let end = pos + 2 + le16(raw, pos);
        raw.subrange(pos + 2, end) + segments(raw, end, n - 1)
    }
}

/// The first `n` bytes, or all of them where there are fewer.
pub open spec fn at_most(s: Seq<u8>, n: int) -> Seq<u8> {
    if s.len() <= n {
        s
    } else {
        s.take(n)
    }
}

/// The number of pages that a blob of `length` bytes fills, at least one.
pub open spec fn pages_for(length: int, page_size: int) -> int {
    let n = (length + page_size - 1) / page_size;
    if n < 1 {
        1
    } else {
        n
    }
}

pub open spec fn min_int(a: int, b: int) -> int {
    if a <= b {
        a
    } else {
        b
    }
}

impl Image {
    /// The data on a blob page.
    pub open spec fn blob_page(self, n: int) -> Seq<u8> {
        let p = self.page(n);
        p.subrange(28, 28 + min_int(le16(p, 24), self.page_size - 28))
    }

    /// The data of the blob pages that the entries `i..n` of a list name. The list starts
    /// at `base` in `s` and ends early at a zero or where `s` ends. `None` where a page
    /// lies outside the file.
    pub open spec fn listed_pages(self, s: Seq<u8>, base: int, i: int, n: int) -> Option<Seq<u8>>
        decreases n - i,
    {
        if i >= n || base + 4 * i + 4 > s.len() || le32(s, base + 4 * i) == 0 {
            Some(Seq::empty())
        } else if !self.has_page(le32(s, base + 4 * i)) {
            None
        } else {
            match self.listed_pages(s, base, i + 1, n) {
                Some(rest) => Some(self.blob_page(le32(s, base + 4 * i)) + rest),
                None => None,
            }
        }
    }

    /// The blob whose record is `raw`: `None` where reading it would leave the file or
    /// its length is beyond what memory can hold.
    pub open spec fn blob_in(self, raw: Seq<u8>) -> Option<Result<Seq<u8>, OdsError>> {
        let h = blob_header(raw, self.ods_ver);
        let stream = flagged(raw, 0x20);
        if h.length == 0 {
            Some(Ok(Seq::empty()))
        } else if h.max_sequence == 0 && stream {
            if 28 + h.length > u64::MAX {
                None
            } else if raw.len() < 28 + h.length {
                Some(
                    Err(OdsError::StreamBlobTruncated(raw.len() as usize, (28 + h.length) as u64)),
                )
            } else {
                Some(Ok(raw.subrange(28, 28 + h.length)))
            }
        } else if (h.max_sequence == 0 || h.level <= 1) && h.length > i64::MAX {
            None
        } else if h.max_sequence == 0 {
            Some(Ok(segments(raw, 28, h.count)))
        } else if h.level == 0 {
            match self.listed_pages(raw, 28, 0, min_int(h.max_sequence, MAX_BLOB_PAGES as int)) {
                Some(data) => Some(Ok(at_most(data, h.length))),
                None => None,
            }
        } else if h.level == 1 {
            if !self.has_page(le32(raw, 28)) {
                None
            } else {
                match self.listed_pages(
                    self.page(le32(raw, 28)),
                    4,
                    0,
                    min_int(pages_for(h.length, self.page_size), MAX_BLOB_PAGES as int),
                ) {
                    Some(data) => Some(Ok(at_most(data, h.length))),
                    None => None,
                }
            }
        } else {
            if !self.has_page(h.lead_page) {
                Some(Err(OdsError::BlobPageOutside(h.lead_page as u32)))
            } else if self.page(h.lead_page)[0] != PAG_BLOB {
                Some(
                    Err(
                        OdsError::NotABlobPage(h.lead_page as u32, self.page(h.lead_page)[0]),
                    ),
                )
            } else {
                Some(Ok(at_most(self.blob_page(h.lead_page), h.length)))
            }
        }
    }

    /// How many records a data page can hold.
    pub open spec fn max_records(self) -> int {
        (self.page_size - 28) / 17
    }

    /// The blob in record `number`, looked up on the data pages `dps` by the sequence
    /// number of the page and the slot.
    pub open spec fn blob_on(self, dps: Seq<u32>, bid: BlobId) -> Option<Result<Seq<u8>, OdsError>>
        decreases dps.len(),
    {
        let sequence = bid.number as int / self.max_records();
        let s = bid.number as int % self.max_records();
        if dps.len() == 0 {
            Some(
                Err(OdsError::BlobHeaderNotFound(bid.relation, sequence as u64, s as u64)),
            )
        } else if !self.has_page(dps[0] as int) {
            None
        } else {
            let p = self.page(dps[0] as int);
            if p[0] != PAG_DATA || le32(p, 16) != sequence || s >= slot_count(p) {
                self.blob_on(dps.skip(1), bid)
            } else if !slot_listed(p, s) {
                None
            } else {
                match slot(p, s) {
                    Some(raw) => if raw.len() < 32 || !flagged(raw, RHD_BLOB) {
                        self.blob_on(dps.skip(1), bid)
                    } else {
                        self.blob_in(raw)
                    },
                    None => self.blob_on(dps.skip(1), bid),
                }
            }
        }
    }

    /// The contents of a blob: `None` where reading it would leave the file.
    pub open spec fn blob(self, bid: BlobId) -> Option<Result<Seq<u8>, OdsError>> {
        match self.first_pp(bid.relation as int) {
            None => None,
            Some(None) => Some(Err(OdsError::NoPointerPage(bid.relation))),
            Some(Some(pp)) => match self.data_pages(pp as int) {
                None => None,
                Some(dps) => self.blob_on(dps, bid),
            },
        }
    }

    /// The versions of the formats of a relation and where they are stored, in the order
    /// in which RDB$FORMATS holds them.
    pub open spec fn formats(self, relation_id: int) -> Option<Seq<(u16, BlobId)>> {
        match self.first_pp(8) {
            None => None,
            Some(None) => Some(Seq::empty()),
            Some(Some(pp)) => self.relation(pp as int).collect(format_in(self, relation_id)),
        }
    }

    /// The descriptors of a format of a relation, of the latest one for `u16::MAX`.
    pub open spec fn format(self, relation_id: u16, fmt_ver: u16) -> Option<
        Result<Seq<Desc>, OdsError>,
    > {
        match self.formats(relation_id as int) {
            None => None,
            Some(entries) => if entries.len() == 0 {
                Some(Err(OdsError::NoFormats(relation_id)))
            } else {
                match chosen_format(entries, fmt_ver) {
                    None => Some(Err(OdsError::FormatNotFound(relation_id, fmt_ver))),
                    Some(bid) => match self.blob(bid) {
                        None => None,
                        Some(Err(e)) => Some(Err(e)),
                        Some(Ok(data)) => Some(descriptors(data)),
                    },
                }
            },
        }
    }
}

/// What a record of RDB$FORMATS says of the relation: null flags at 0, relation at 4,
/// version at 6, descriptor blob at 8.
pub open spec fn format_in(img: Image, relation_id: int) -> spec_fn(Seq<u8>) -> Option<
    Option<(u16, BlobId)>,
> {
    |raw: Seq<u8>|
        match img.unpack_meta(raw) {
            None => None,
            Some(None) => Some(None),
            Some(Some(rec)) => Some(
                if rec.len() >= 16 && le16(rec, 4) == relation_id {
                    Some((le16(rec, 6) as u16, blob_id_at(rec, 8)))
                } else {
                    None
                },
            ),
        }
}

/// The last of the entries with the highest version.
pub open spec fn latest_format(entries: Seq<(u16, BlobId)>) -> (u16, BlobId)
    decreases entries.len(),
{
    if entries.len() <= 1 {
        entries[0]
    } else {
        let before = latest_format(entries.drop_last());
        if entries.last().0 >= before.0 {
            entries.last()
        } else {
            before
        }
    }
}

/// The first of the entries with the version.
pub open spec fn format_with(entries: Seq<(u16, BlobId)>, fmt_ver: u16) -> Option<BlobId>
    decreases entries.len(),
{
    if entries.len() == 0 {
        None
    } else if entries[0].0 == fmt_ver {
        Some(entries[0].1)
    } else {
        format_with(entries.skip(1), fmt_ver)
    }
}

pub open spec fn chosen_format(entries: Seq<(u16, BlobId)>, fmt_ver: u16) -> Option<BlobId> {
    if fmt_ver == u16::MAX {
        Some(latest_format(entries).1)
    } else {
        format_with(entries, fmt_ver)
    }
}

/// The descriptors in a format blob: their number, then 12 bytes for each.
pub open spec fn descriptors(data: Seq<u8>) -> Result<Seq<Desc>, OdsError> {
    let count = le16(data, 0);
    if data.len() < 2 {
        Err(OdsError::FormatTooShort(data.len() as usize))
    } else if data.len() < 2 + 12 * count {
        Err(
            OdsError::FormatTruncated(
                data.len() as usize,
                (2 + 12 * count) as usize,
                count as usize,
            ),
        )
    } else {
        Ok(Seq::new(count as nat, |i: int| desc_at(data, 2 + 12 * i)))
    }
}

/// The bytes of a result.
pub open spec fn bytes_of(r: Result<Vec<u8>, OdsError>) -> Result<Seq<u8>, OdsError> {
    match r {
        Ok(v) => Ok(v@),
        Err(e) => Err(e),
    }
}

/// The descriptors of a result.
pub open spec fn descs_of(r: Result<Vec<Desc>, OdsError>) -> Result<Seq<Desc>, OdsError> {
    match r {
        Ok(v) => Ok(v@),
        Err(e) => Err(e),
    }
}

/// Reads the descriptors in a format blob.
pub fn read_descriptors(data: &[u8]) -> (r: Result<Vec<Desc>, OdsError>)
    ensures
        descs_of(r) == descriptors(data@),
{
    if data.len() < 2 {
        return Err(OdsError::FormatTooShort(data.len()));
    }
    let count: usize = get_u16(data, 0) as usize;
    let needed: usize = 2 + count * 12;
    if data.len() < needed {
        return Err(OdsError::FormatTruncated(data.len(), needed, count));
    }
    let mut out: Vec<Desc> = Vec::new();
    let mut i: usize = 0;
    while i < count
        invariant
            i <= count <= 0xffff,
            2 + 12 * count <= data@.len(),
            out@ =~= Seq::new(i as nat, |k: int| desc_at(data@, 2 + 12 * k)),
        decreases count - i,
    {
        let d: &[u8] = slice_subrange(data, 2 + i * 12, 14 + i * 12);
        assert(desc_at(d@, 0) == desc_at(data@, 2 + 12 * i));
        out.push(Desc::from_bytes(d));
        i = i + 1;
    }
    Ok(out)
}

fn read_segments(raw: &[u8], count: u32) -> (r: Vec<u8>)
    requires
        raw@.len() >= 28,
    ensures
        r@ == segments(raw@, 28, count as int),
{
    let mut data: Vec<u8> = Vec::new();
    let mut pos: usize = 28;
    let mut left: u32 = count;
    while left > 0
        invariant_except_break
            28 <= pos <= raw@.len(),
            segments(raw@, 28, count as int) == data@ + segments(raw@, pos as int, left as int),
        ensures
            data@ == segments(raw@, 28, count as int),
        decreases left,
    {
        if raw.len() - pos < 2 {
            assert(data@ + Seq::<u8>::empty() =~= data@);
            break ;
        }
        let seg_len: usize = get_u16(raw, pos) as usize;
        if raw.len() - pos - 2 < seg_len {
            assert(data@ + Seq::<u8>::empty() =~= data@);
            break ;
        }
        let ghost before = data@;
        append(&mut data, slice_subrange(raw, pos + 2, pos + 2 + seg_len));
        proof {
            let piece = raw@.subrange(pos + 2, pos + 2 + seg_len);
            let rest = segments(raw@, pos + 2 + seg_len, left - 1);
            assert(before + (piece + rest) =~= before + piece + rest);
        }
        pos = pos + 2 + seg_len;
        left = left - 1;
        proof {
            if left == 0 {
                assert(data@ + Seq::<u8>::empty() =~= data@);
            }
        }
    }
    data
}

/// Drops what is behind the first `n` bytes.
fn truncate_to(data: &mut Vec<u8>, n: u64)
    ensures
        final(data)@ == at_most(old(data)@, n as int),
{
    if data.len() as u64 > n {
        data.truncate(n as usize);
        assert(data@ =~= old(data)@.take(n as int));
    }
}

impl<'a> OdsReader<'a> {
    /// The page sequence and the slot in which the record of a blob is stored.
    pub(crate) fn resolve_bid(&self, bid: BlobId) -> (r: (u64, u64))
        requires
            self.wf(),
        ensures
            r.0 == bid.number as int / self@.max_records(),
            r.1 == bid.number as int % self@.max_records(),
    {
        let max_rec: u64 = (self.page_size as u64 - 28) / 17;
        (bid.number / max_rec, bid.number % max_rec)
    }

    fn read_blob_page_raw(&self, page_num: u32) -> (r: Vec<u8>)
        requires
            self.wf(),
            self@.has_page(page_num as int),
        ensures
            r@ == self@.blob_page(page_num as int),
    {
        let bp: &[u8] = self.page(page_num);
        let dlen: usize = get_u16(bp, 24) as usize;
        let room: usize = self.page_size - 28;
        let n: usize = if dlen <= room {
            dlen
        } else {
            room
        };
        copy_range(bp, 28, 28 + n)
    }

    fn read_blob_page(&self, page_num: u32, length: u64) -> (r: Result<Vec<u8>, OdsError>)
        requires
            self.wf(),
        ensures
            bytes_of(r) == (if !self@.has_page(page_num as int) {
                Err(OdsError::BlobPageOutside(page_num))
            } else if self@.page(page_num as int)[0] != PAG_BLOB {
                Err(OdsError::NotABlobPage(page_num, self@.page(page_num as int)[0]))
            } else {
                Ok(at_most(self@.blob_page(page_num as int), length as int))
            }),
    {
        if !self.contains_page(page_num) {
            return Err(OdsError::BlobPageOutside(page_num));
        }
        let bp: &[u8] = self.page(page_num);
        if bp[0] != PAG_BLOB {
            return Err(OdsError::NotABlobPage(page_num, bp[0]));
        }
        let mut raw: Vec<u8> = self.read_blob_page_raw(page_num);
        truncate_to(&mut raw, length);
        Ok(raw)
    }

    fn read_listed_pages(&self, s: &[u8], base: usize, n: usize) -> (r: Vec<u8>)
        requires
            self.wf(),
            base <= 28,
            n <= MAX_BLOB_PAGES,
            self@.listed_pages(s@, base as int, 0, n as int) is Some,
        ensures
            self@.listed_pages(s@, base as int, 0, n as int) == Some(r@),
    {
        let mut data: Vec<u8> = Vec::new();
        let mut i: usize = 0;
        let ghost all = self@.listed_pages(s@, base as int, 0, n as int);
        assert(data@ + all->0 =~= all->0);
        loop
            invariant_except_break
                self.wf(),
                base <= 28,
                i <= n <= MAX_BLOB_PAGES,
                self@.listed_pages(s@, base as int, i as int, n as int) is Some,
                all == behind(data@, self@.listed_pages(s@, base as int, i as int, n as int)),
            ensures
                all == Some(data@),
            decreases n - i,
        {
            if i >= n || base + 4 * i + 4 > s.len() {
                assert(data@ + Seq::<u8>::empty() =~= data@);
                break ;
            }
            let pg: u32 = get_u32(s, base + 4 * i);
            if pg == 0 {
                assert(data@ + Seq::<u8>::empty() =~= data@);
                break ;
            }
            let piece: Vec<u8> = self.read_blob_page_raw(pg);
            let ghost before = data@;
            append(&mut data, piece.as_slice());
            proof {
                let rest = self@.listed_pages(s@, base as int, i + 1, n as int)->0;
                assert(before + (piece@ + rest) =~= before + piece@ + rest);
            }
            i = i + 1;
        }
        data
    }

    /// Reads the blob whose record is `raw`.
    fn read_blob_record(&self, raw: &[u8]) -> (r: Result<Vec<u8>, OdsError>)
        requires
            self.wf(),
            raw@.len() >= 32,
            self@.blob_in(raw@) is Some,
        ensures
            self@.blob_in(raw@) == Some(bytes_of(r)),
    {
        let lead: u32 = get_u32(raw, 0);
        let max_seq: u32 = get_u32(raw, 4);
        let new_layout: bool = self.ods_ver >= 14;
        let level: u8 = if new_layout {
            raw[27]
        } else {
            raw[12]
        };
        let length: u64 = if new_layout {
            get_u64(raw, 16)
        } else {
            get_u32(raw, 20) as u64
        };
        let count: u32 = if new_layout {
            get_u32(raw, 12)
        } else {
            get_u32(raw, 16)
        };
        let stream: bool = get_u16(raw, 10) & 0x20 != 0;
        if length == 0 {
            return Ok(Vec::new());
        }
        if max_seq == 0 {
            if stream {
                let end: u64 = 28 + length;
                if (raw.len() as u64) < end {
                    return Err(OdsError::StreamBlobTruncated(raw.len(), end));
                }
                return Ok(copy_range(raw, 28, end as usize));
            }
            return Ok(read_segments(raw, count));
        }
        if level == 0 {
            let n: usize = if max_seq <= 1000 {
                max_seq as usize
            } else {
                MAX_BLOB_PAGES
            };
            let mut data: Vec<u8> = self.read_listed_pages(raw, 28, n);
            truncate_to(&mut data, length);
            Ok(data)
        } else if level == 1 {
            let pp: &[u8] = self.page(get_u32(raw, 28));
            let ps: u64 = self.page_size as u64;
            let pages: u64 = (length + ps - 1) / ps;
            assert(pages == (length as int + self@.page_size - 1) / self@.page_size);
            let n: usize = if pages < 1 {
                1
            } else if pages <= 1000 {
                pages as usize
            } else {
                MAX_BLOB_PAGES
            };
            let mut data: Vec<u8> = self.read_listed_pages(pp, 4, n);
            truncate_to(&mut data, length);
            Ok(data)
        } else {
            self.read_blob_page(lead, length)
        }
    }

    /// Reads a blob.
    pub fn read_blob_from_bid(&self, bid: BlobId) -> (r: Result<Vec<u8>, OdsError>)
        requires
            self.wf(),
            self@.blob(bid) is Some,
        ensures
            self@.blob(bid) == Some(bytes_of(r)),
    {
        let (target_seq, target_slot): (u64, u64) = self.resolve_bid(bid);
        let pp: u32 = match self.find_first_pp(bid.relation) {
            Some(pp) => pp,
            None => {
                return Err(OdsError::NoPointerPage(bid.relation));
            },
        };
        let dps: Vec<u32> = self.data_pages_for(pp);
        let ghost want = self@.blob(bid);
        let mut i: usize = 0;
        assert(dps@.skip(0) =~= dps@);
        while i < dps.len()
            invariant
                self.wf(),
                i <= dps@.len(),
                want is Some,
                want == self@.blob(bid),
                target_seq == bid.number as int / self@.max_records(),
                target_slot == bid.number as int % self@.max_records(),
                want == self@.blob_on(dps@.skip(i as int), bid),
            decreases dps@.len() - i,
        {
            let n: u32 = dps[i];
            assert(dps@.skip(i as int)[0] == n);
            assert(dps@.skip(i as int).skip(1) =~= dps@.skip(i + 1));
            let dp: &'a [u8] = self.page(n);
            i = i + 1;
            if dp[0] == PAG_DATA && get_u32(dp, 16) as u64 == target_seq && target_slot < get_u16(
                dp,
                22,
            ) as u64 {
                if let Some(raw) = self.read_slot_raw(n, target_slot as usize) {
                    if raw.len() >= 32 && get_u16(raw, 10) & RHD_BLOB != 0 {
                        return self.read_blob_record(raw);
                    }
                }
            }
        }
        Err(OdsError::BlobHeaderNotFound(bid.relation, target_seq, target_slot))
    }

    pub(crate) fn scan_formats(&self, relation_id: u16) -> (r: Vec<(u16, BlobId)>)
        requires
            self.wf(),
            self@.formats(relation_id as int) is Some,
        ensures
            self@.formats(relation_id as int) == Some(r@),
    {
        let mut found: Vec<(u16, BlobId)> = Vec::new();
        let pp: u32 = match self.find_first_pp(8) {
            Some(pp) => pp,
            None => {
                return found;
            },
        };
        let ghost f = format_in(self@, relation_id as int);
        let ghost all = self@.relation(pp as int).collect(f);
        let mut cur: SlotCursor = SlotCursor::new(self, pp);
        assert(found@ + all->0 =~= all->0);
        loop
            invariant_except_break
                cur.wf(),
                cur.db() == self@,
                self.wf(),
                f == format_in(self@, relation_id as int),
                cur.left().collect(f) is Some,
                all == behind(found@, cur.left().collect(f)),
            ensures
                all == Some(found@),
            decreases cur.left().recs.len(),
        {
            let ghost before = cur.left();
            match cur.next() {
                None => {
                    assert(found@ + Seq::<(u16, BlobId)>::empty() =~= found@);
                    break ;
                },
                Some(raw) => {
                    proof {
                        lemma_collect_step(before, f, found@);
                    }
                    if let Some(rec) = self.unpack_record_meta(raw) {
                        let rec: &[u8] = rec.as_slice();
                        if rec.len() >= 16 && get_u16(rec, 4) == relation_id {
                            let fv: u16 = get_u16(rec, 6);
                            let number: u64 = 0x1_0000_0000 * rec[11] as u64 + get_u32(
                                rec,
                                12,
                            ) as u64;
                            found.push((fv, BlobId { relation: get_u16(rec, 8), number }));
                        }
                    }
                },
            }
        }
        found
    }

    /// Reads the descriptors of a record format from RDB$FORMATS, those of the latest
    /// format for `u16::MAX`.
    pub fn read_format(&self, relation_id: u16, fmt_ver: u16) -> (r: Result<Vec<Desc>, OdsError>)
        requires
            self.wf(),
            self@.format(relation_id, fmt_ver) is Some,
        ensures
            self@.format(relation_id, fmt_ver) == Some(descs_of(r)),
    {
        let entries: Vec<(u16, BlobId)> = self.scan_formats(relation_id);
        if entries.len() == 0 {
            return Err(OdsError::NoFormats(relation_id));
        }
        let bid: BlobId = match pick_format(&entries, fmt_ver) {
            Some(b) => b,
            None => {
                return Err(OdsError::FormatNotFound(relation_id, fmt_ver));
            },
        };
        match self.read_blob_from_bid(bid) {
            Err(e) => Err(e),
            Ok(data) => read_descriptors(data.as_slice()),
        }
    }
}

/// Where the descriptors of a format are stored, those of the latest one for `u16::MAX`.
pub(crate) fn pick_format(entries: &Vec<(u16, BlobId)>, fmt_ver: u16) -> (r: Option<BlobId>)
    requires
        entries@.len() > 0,
    ensures
        r == chosen_format(entries@, fmt_ver),
{
    if fmt_ver == u16::MAX {
        Some(pick_latest(entries))
    } else {
        pick_version(entries, fmt_ver)
    }
}

fn pick_latest(entries: &Vec<(u16, BlobId)>) -> (r: BlobId)
    requires
        entries@.len() > 0,
    ensures
        r == latest_format(entries@).1,
{
    let mut best: (u16, BlobId) = entries[0];
    let mut i: usize = 1;
    while i < entries.len()
        invariant
            1 <= i <= entries@.len(),
            best == latest_format(entries@.take(i as int)),
        decreases entries@.len() - i,
    {
        assert(entries@.take(i + 1).drop_last() =~= entries@.take(i as int));
        if entries[i].0 >= best.0 {
            best = entries[i];
        }
        i = i + 1;
    }
    assert(entries@.take(i as int) =~= entries@);
    best.1
}

fn pick_version(entries: &Vec<(u16, BlobId)>, fmt_ver: u16) -> (r: Option<BlobId>)
    ensures
        r == format_with(entries@, fmt_ver),
{
    let mut i: usize = 0;
    assert(entries@.skip(0) =~= entries@);
    while i < entries.len()
        invariant
            i <= entries@.len(),
            format_with(entries@, fmt_ver) == format_with(entries@.skip(i as int), fmt_ver),
        decreases entries@.len() - i,
    {
        if entries[i].0 == fmt_ver {
            return Some(entries[i].1);
        }
        assert(entries@.skip(i as int).skip(1) =~= entries@.skip(i + 1));
        i = i + 1;
    }
    None
}

} // verus!
