//! The on-disk structure: pages, pointer pages, data pages and record headers.
//!
//! A database file is an array of pages of equal size. The header page names the first
//! pointer page of RDB$PAGES, and RDB$PAGES names the first pointer page of every other
//! relation. Pointer pages form a chain and list the data pages of a relation. A data
//! page holds records in slots; each record starts with a header that tells how its data
//! is stored.
use crate::bytes::{append, get_u16, get_u32, le16, le32, signed, to_i16, to_i8};
use crate::sqz::{decompress, decompress_into, sqz, unpacked};
use vstd::prelude::*;
use vstd::slice::slice_subrange;

verus! {

pub const PAG_DATA: u8 = 5;

pub const PAG_POINTER: u8 = 4;

pub const PAG_BLOB: u8 = 8;

// Record header flags.
pub const RHD_DELETED: u16 = 1;

pub const RHD_CHAIN: u16 = 2;

pub const RHD_FRAGMENT: u16 = 4;

pub const RHD_INCOMPLETE: u16 = 8;

pub const RHD_BLOB: u16 = 16;

pub const RHD_LONG_TRANUM: u16 = 1024;

pub const RHD_NOT_PACKED: u16 = 2048;

// Field types.
pub const DTYPE_TEXT: u8 = 1;

pub const DTYPE_CSTRING: u8 = 2;

pub const DTYPE_VARYING: u8 = 3;

pub const DTYPE_SHORT: u8 = 8;

pub const DTYPE_LONG: u8 = 9;

pub const DTYPE_QUAD: u8 = 10;

pub const DTYPE_REAL: u8 = 11;

pub const DTYPE_DOUBLE: u8 = 12;

pub const DTYPE_D_FLOAT: u8 = 13;

pub const DTYPE_SQL_DATE: u8 = 14;

pub const DTYPE_SQL_TIME: u8 = 15;

pub const DTYPE_TIMESTAMP: u8 = 16;

pub const DTYPE_BLOB: u8 = 17;

pub const DTYPE_ARRAY: u8 = 18;

pub const DTYPE_INT64: u8 = 19;

pub const DTYPE_DBKEY: u8 = 20;

pub const DTYPE_BOOLEAN: u8 = 21;

pub const DTYPE_DEC64: u8 = 22;

pub const DTYPE_DEC128: u8 = 23;

pub const DTYPE_INT128: u8 = 24;

pub const DTYPE_SQL_TIME_TZ: u8 = 25;

pub const DTYPE_TIMESTAMP_TZ: u8 = 26;

// ── Field descriptors ────────────────────────────────────────────────────────

/// How a field is stored in a record of one format.
#[derive(Debug, Clone, Copy, PartialEq, Eq, Structural)]
pub struct Desc {
    pub dtype: u8,
    pub scale: i8,
    pub length: u16,
    pub sub_type: i16,
    pub flags: u16,
    pub offset: u32,
}

/// The descriptor stored in the 12 bytes at `b[i..i + 12]`.
pub open spec fn desc_at(b: Seq<u8>, i: int) -> Desc {
    Desc {
        dtype: b[i],
        scale: signed(b[i + 1] as int, 8) as i8,
        length: le16(b, i + 2) as u16,
        sub_type: signed(le16(b, i + 4), 16) as i16,
        flags: le16(b, i + 6) as u16,
        offset: le32(b, i + 8) as u32,
    }
}

impl Desc {
    pub fn from_bytes(b: &[u8]) -> (r: Self)
        requires
            b@.len() >= 12,
        ensures
            r == desc_at(b@, 0),
    {
        Self {
            dtype: b[0],
            scale: to_i8(b[1]),
            length: get_u16(b, 2),
            sub_type: to_i16(get_u16(b, 4)),
            flags: get_u16(b, 6),
            offset: get_u32(b, 8),
        }
    }

    pub fn default_zero() -> (r: Self)
        ensures
            r == (Desc { dtype: 0, scale: 0, length: 0, sub_type: 0, flags: 0, offset: 0 }),
    {
        Self { dtype: 0, scale: 0, length: 0, sub_type: 0, flags: 0, offset: 0 }
    }
}

// ── Errors ───────────────────────────────────────────────────────────────────

/// Why a database cannot be read.
#[derive(Debug)]
pub enum OdsError {
    /// The file is too small to hold a header.
    TooSmall,
    InvalidPageSize(usize),
    /// The structure version (and the word that holds it) is none that is known.
    NotRecognised(u16, u16),
    /// The structure version is older than 12.
    NotSupported(u16),
    /// The relation has no pointer page.
    NoPointerPage(u16),
    TableNotFound,
    /// The relation has no format.
    NoFormats(u16),
    /// The relation does not have the format.
    FormatNotFound(u16, u16),
    /// The format blob of this length cannot hold a count.
    FormatTooShort(usize),
    /// The format blob has this length, needs this one, and has this count.
    FormatTruncated(usize, usize, usize),
    /// The stream blob has this length and needs this one.
    StreamBlobTruncated(usize, u64),
    /// The blob page lies outside the file.
    BlobPageOutside(u32),
    /// The page is no blob page but of this type.
    NotABlobPage(u32, u8),
    /// No blob header in the relation at this page sequence and slot.
    BlobHeaderNotFound(u16, u64, u64),
    NoFields(u16),
    NoPrimaryKey,
    NoIndexSegments,
}

// ── The file as a value ──────────────────────────────────────────────────────

/// What a reader sees of a database: the bytes of the file, and the page size and
/// structure version that its header states.
#[verifier::ext_equal]
pub struct Image {
    pub data: Seq<u8>,
    pub page_size: int,
    pub ods_ver: int,
}

/// The records of a relation in the order in which they are visited, up to the point
/// where reading on would leave the file (`fault`) or to the end.
#[verifier::ext_equal]
pub struct Scan {
    pub recs: Seq<Seq<u8>>,
    pub fault: bool,
}

impl Scan {
    pub open spec fn then_scan(self, next: Scan) -> Scan {
        if self.fault {
            self
        } else {
            Scan { recs: self.recs + next.recs, fault: next.fault }
        }
    }
}

/// How many slots the data page `p` lists.
pub open spec fn slot_count(p: Seq<u8>) -> int {
    le16(p, 22)
}

/// Whether the directory entry of slot `s` lies on the page `p`.
pub open spec fn slot_listed(p: Seq<u8>, s: int) -> bool {
    28 + 4 * s <= p.len()
}

/// The record in slot `s` of the page `p`, `None` where the slot is empty or reaches
/// behind the page.
pub open spec fn slot(p: Seq<u8>, s: int) -> Option<Seq<u8>> {
    let off = le16(p, 24 + 4 * s);
    let len = le16(p, 26 + 4 * s);
    if off == 0 || len == 0 || off + len > p.len() {
        None
    } else {
        Some(p.subrange(off, off + len))
    }
}

/// The records in the slots `s..n` of the page `p`.
pub open spec fn page_scan(p: Seq<u8>, s: int, n: int) -> Scan
    decreases n - s,
{
    if s >= n {
        Scan { recs: Seq::empty(), fault: false }
    } else if !slot_listed(p, s) {
        Scan { recs: Seq::empty(), fault: true }
    } else {
        let rest = page_scan(p, s + 1, n);
        match slot(p, s) {
            Some(raw) => Scan { recs: seq![raw] + rest.recs, fault: rest.fault },
            None => rest,
        }
    }
}

/// The entries that are not zero among the first `n` of the pointer page `p`.
pub open spec fn page_entries(p: Seq<u8>, n: int) -> Seq<u32>
    decreases n,
{
    if n <= 0 {
        Seq::empty()
    } else {
        let before = page_entries(p, n - 1);
        let e = le32(p, 32 + 4 * (n - 1));
        if e == 0 {
            before
        } else {
            before.push(e as u32)
        }
    }
}

/// Numbers in ascending order.
pub open spec fn ascending(s: Seq<u32>) -> Seq<u32> {
    s.sort_by(|a: u32, b: u32| a <= b)
}

impl Image {
    pub open spec fn wf(self) -> bool {
        &&& 256 <= self.data.len()
        &&& 1024 <= self.page_size <= 65535
        &&& 12 <= self.ods_ver <= 100
    }

    /// Whether page `n` lies in the file.
    pub open spec fn has_page(self, n: int) -> bool {
        n * self.page_size + self.page_size <= self.data.len()
    }

    pub open spec fn page(self, n: int) -> Seq<u8> {
        self.data.subrange(n * self.page_size, n * self.page_size + self.page_size)
    }

    /// The first pointer page of RDB$PAGES. Version 14 moved the field.
    pub open spec fn hdr_pages(self) -> u32 {
        le32(
            self.page(0),
            if self.ods_ver >= 14 {
                28
            } else {
                20
            },
        ) as u32
    }

    /// The data pages that the pointer pages from `pp` on list, in chain order. `None`
    /// where the chain or a list leaves the file, or where the chain is longer than `fuel`.
    pub open spec fn chain(self, pp: int, fuel: nat) -> Option<Seq<u32>>
        decreases fuel,
    {
        if pp == 0 {
            Some(Seq::empty())
        } else if fuel == 0 || !self.has_page(pp) {
            None
        } else {
            let p = self.page(pp);
            let count = le16(p, 24);
            let next = le32(p, 20);
            if p[0] != PAG_POINTER {
                Some(Seq::empty())
            } else if 32 + 4 * count > p.len() {
                None
            } else if p[1] % 2 == 1 || next == 0 {
                Some(page_entries(p, count))
            } else {
                match self.chain(next, (fuel - 1) as nat) {
                    Some(rest) => Some(page_entries(p, count) + rest),
                    None => None,
                }
            }
        }
    }

    /// The data pages of the relation whose first pointer page is `pp`, by ascending page
    /// number; `None` where they cannot be listed. A chain that ends visits no page twice,
    /// so its length is less than that of the file.
    pub open spec fn data_pages(self, pp: int) -> Option<Seq<u32>> {
        match self.chain(pp, self.data.len()) {
            Some(s) => Some(ascending(s)),
            None => None,
        }
    }

    /// The records on the data pages `dps`. Pages of another type hold none.
    pub open spec fn scan(self, dps: Seq<u32>) -> Scan
        decreases dps.len(),
    {
        if dps.len() == 0 {
            Scan { recs: Seq::empty(), fault: false }
        } else if !self.has_page(dps[0] as int) {
            Scan { recs: Seq::empty(), fault: true }
        } else {
            let p = self.page(dps[0] as int);
            page_scan(
                p,
                0,
                if p[0] == PAG_DATA {
                    slot_count(p)
                } else {
                    0
                },
            ).then_scan(self.scan(dps.skip(1)))
        }
    }

    /// The records of the relation whose first pointer page is `pp`.
    pub open spec fn relation(self, pp: int) -> Scan {
        match self.data_pages(pp) {
            Some(dps) => self.scan(dps),
            None => Scan { recs: Seq::empty(), fault: true },
        }
    }

    /// What slot `s` of page `n` holds: `None` where the page or its directory entry lies
    /// outside, `Some(None)` where there is no such record.
    pub open spec fn slot_raw(self, n: int, s: int) -> Option<Option<Seq<u8>>> {
        if !self.has_page(n) {
            None
        } else {
            let p = self.page(n);
            if p[0] != PAG_DATA || s >= slot_count(p) {
                Some(None)
            } else if !slot_listed(p, s) {
                None
            } else {
                Some(slot(p, s))
            }
        }
    }

    /// The data of a record that starts at the fragment `cur`, behind `out`, over at most
    /// `n` fragments: `None` where a fragment pointer leaves the file, `Some(None)` where
    /// a fragment is malformed or missing.
    pub open spec fn fragments(self, cur: Seq<u8>, out: Seq<u8>, n: nat) -> Option<
        Option<Seq<u8>>,
    >
        decreases n,
    {
        if n == 0 {
            Some(None)
        } else {
            match fragment_payload(cur) {
                None => Some(None),
                Some(piece) => if flagged(cur, RHD_INCOMPLETE) {
                    match self.slot_raw(le32(cur, 16), le16(cur, 20)) {
                        None => None,
                        Some(None) => Some(None),
                        Some(Some(next)) => self.fragments(next, out + piece, (n - 1) as nat),
                    }
                } else {
                    Some(Some(out + piece))
                },
            }
        }
    }

    /// The data of the record `raw` for a scan of a system relation. Old versions count,
    /// fragmented records are put together, and deleted records, continuation fragments
    /// and blobs are passed over. `None` where reading would leave the file.
    pub open spec fn unpack_meta(self, raw: Seq<u8>) -> Option<Option<Seq<u8>>> {
        if raw.len() < 13 || flagged(raw, RHD_DELETED | RHD_FRAGMENT | RHD_BLOB) {
            Some(None)
        } else if flagged(raw, RHD_INCOMPLETE) {
            self.fragments(raw, Seq::empty(), MAX_FRAGMENTS as nat)
        } else {
            Some(payload(raw))
        }
    }
}

// ── Record headers ───────────────────────────────────────────────────────────

/// How many fragments a record may have.
pub const MAX_FRAGMENTS: usize = 4096;

/// Whether the header of the record `raw` has a flag of `mask`.
pub open spec fn flagged(raw: Seq<u8>, mask: u16) -> bool {
    le16(raw, 10) as u16 & mask != 0
}

/// Where the data of an unfragmented record starts.
pub open spec fn data_start(raw: Seq<u8>) -> int {
    if flagged(raw, RHD_LONG_TRANUM) {
        16
    } else {
        13
    }
}

/// The data at `start` of a record, as it is or decompressed.
pub open spec fn data_from(raw: Seq<u8>, start: int) -> Option<Seq<u8>> {
    if raw.len() <= start {
        None
    } else if flagged(raw, RHD_NOT_PACKED) {
        Some(raw.skip(start))
    } else {
        unpacked(raw.skip(start))
    }
}

/// The data of an unfragmented record.
pub open spec fn payload(raw: Seq<u8>) -> Option<Seq<u8>> {
    data_from(raw, data_start(raw))
}

/// The data of one fragment. A fragment that is followed by another has a header of 22
/// bytes.
pub open spec fn fragment_payload(raw: Seq<u8>) -> Option<Seq<u8>> {
    if raw.len() < 13 {
        None
    } else {
        data_from(
            raw,
            if flagged(raw, RHD_INCOMPLETE) {
                22
            } else {
                data_start(raw)
            },
        )
    }
}

/// The data of a whole record that is not deleted, and no old version unless
/// `allow_chain` is set.
pub open spec fn unpack(raw: Seq<u8>, allow_chain: bool) -> Option<Seq<u8>> {
    if raw.len() < 13 || flagged(raw, RHD_DELETED | RHD_FRAGMENT | RHD_INCOMPLETE | RHD_BLOB) || (
    !allow_chain && flagged(raw, RHD_CHAIN)) {
        None
    } else {
        payload(raw)
    }
}

/// The transaction that wrote the record, `None` for blobs and fragments.
pub open spec fn transaction(raw: Seq<u8>) -> Option<u64> {
    if raw.len() < 13 || flagged(raw, RHD_FRAGMENT | RHD_INCOMPLETE | RHD_BLOB) {
        None
    } else if flagged(raw, RHD_LONG_TRANUM) {
        if raw.len() < 16 {
            None
        } else {
            Some((le32(raw, 0) + 0x1_0000_0000 * le16(raw, 14)) as u64)
        }
    } else {
        Some(le32(raw, 0) as u64)
    }
}

/// The buffer after the data of `raw` was unpacked into it, and whether it is whole. A
/// record without data leaves the buffer alone; a malformed one leaves what came out.
pub open spec fn payload_into(raw: Seq<u8>, buf: Seq<u8>) -> (bool, Seq<u8>) {
    let start = data_start(raw);
    if raw.len() <= start {
        (false, buf)
    } else if flagged(raw, RHD_NOT_PACKED) {
        (true, raw.skip(start))
    } else {
        sqz(raw.skip(start), Seq::empty())
    }
}

/// What `unpack_record_into` does.
pub open spec fn unpack_into(raw: Seq<u8>, buf: Seq<u8>) -> (bool, Seq<u8>) {
    if raw.len() < 13 || flagged(
        raw,
        RHD_DELETED | RHD_CHAIN | RHD_FRAGMENT | RHD_INCOMPLETE | RHD_BLOB,
    ) {
        (false, buf)
    } else {
        payload_into(raw, buf)
    }
}

/// What `unpack_record_cdc` does.
pub open spec fn unpack_cdc(raw: Seq<u8>, buf: Seq<u8>) -> (Option<bool>, Seq<u8>) {
    if raw.len() < 13 || flagged(raw, RHD_FRAGMENT | RHD_INCOMPLETE | RHD_BLOB) {
        (None, buf)
    } else {
        let (ok, data) = payload_into(raw, buf);
        (
            if ok {
                Some(flagged(raw, RHD_DELETED))
            } else {
                None
            },
            data,
        )
    }
}

fn data_start_of(raw: &[u8]) -> (r: usize)
    requires
        raw@.len() >= 13,
    ensures
        r == data_start(raw@),
{
    let flags: u16 = get_u16(raw, 10);
    if flags & RHD_LONG_TRANUM != 0 {
        16
    } else {
        13
    }
}

pub(crate) fn data_of(raw: &[u8], start: usize) -> (r: Option<Vec<u8>>)
    requires
        raw@.len() >= 13,
    ensures
        match r {
            Some(v) => data_from(raw@, start as int) == Some(v@),
            None => data_from(raw@, start as int) is None,
        },
{
    if raw.len() <= start {
        return None;
    }
    let flags: u16 = get_u16(raw, 10);
    let packed: &[u8] = slice_subrange(raw, start, raw.len());
    assert(packed@ =~= raw@.skip(start as int));
    if flags & RHD_NOT_PACKED != 0 {
        Some(vstd::slice::slice_to_vec(packed))
    } else {
        decompress(packed)
    }
}

fn data_into(raw: &[u8], buf: &mut Vec<u8>) -> (ok: bool)
    requires
        raw@.len() >= 13,
    ensures
        (ok, final(buf)@) == payload_into(raw@, old(buf)@),
{
    let start: usize = data_start_of(raw);
    if raw.len() <= start {
        return false;
    }
    let flags: u16 = get_u16(raw, 10);
    let packed: &[u8] = slice_subrange(raw, start, raw.len());
    assert(packed@ =~= raw@.skip(start as int));
    if flags & RHD_NOT_PACKED != 0 {
        buf.clear();
        append(buf, packed);
        assert(buf@ =~= packed@);
        true
    } else {
        decompress_into(packed, buf)
    }
}

/// Unpacks a record into `buf`. Returns false if the record is to be skipped: deleted, an
/// old version, a blob, a fragment or malformed.
///
/// An old version of an updated row is often stored as a difference. A snapshot takes
/// only the current version, or an updated row would appear twice.
pub fn unpack_record_into(raw: &[u8], buf: &mut Vec<u8>) -> (ok: bool)
    ensures
        (ok, final(buf)@) == unpack_into(raw@, old(buf)@),
        ok ==> unpack(raw@, false) == Some(final(buf)@),
        !ok ==> unpack(raw@, false) is None,
{
    if raw.len() < 13 {
        return false;
    }
    let flags: u16 = get_u16(raw, 10);
    let skip: u16 = RHD_DELETED | RHD_CHAIN | RHD_FRAGMENT | RHD_INCOMPLETE | RHD_BLOB;
    proof {
        lemma_mask_split(flags);
    }
    if flags & skip != 0 {
        return false;
    }
    data_into(raw, buf)
}

proof fn lemma_mask_split(flags: u16)
    ensures
        (flags & (RHD_DELETED | RHD_CHAIN | RHD_FRAGMENT | RHD_INCOMPLETE | RHD_BLOB) != 0) <==> (
        flags & (RHD_DELETED | RHD_FRAGMENT | RHD_INCOMPLETE | RHD_BLOB) != 0 || flags & RHD_CHAIN
            != 0),
{
    assert((flags & (1u16 | 2u16 | 4u16 | 8u16 | 16u16) != 0) <==> (flags & (1u16 | 4u16 | 8u16
        | 16u16) != 0 || flags & 2u16 != 0)) by (bit_vector);
}

/// The transaction of a record, without unpacking it. `None` for blobs, fragments and
/// malformed records.
pub fn record_transaction(raw: &[u8]) -> (r: Option<u64>)
    ensures
        r == transaction(raw@),
{
    if raw.len() < 13 {
        return None;
    }
    let flags: u16 = get_u16(raw, 10);
    if flags & (RHD_FRAGMENT | RHD_INCOMPLETE | RHD_BLOB) != 0 {
        return None;
    }
    let lo: u64 = get_u32(raw, 0) as u64;
    if flags & RHD_LONG_TRANUM != 0 {
        if raw.len() < 16 {
            return None;
        }
        let hi: u64 = get_u16(raw, 14) as u64;
        Some(hi * 0x1_0000_0000 + lo)
    } else {
        Some(lo)
    }
}

/// Like `unpack_record_into`, but takes deleted records and old versions too. Returns
/// whether the record is deleted; `None` for blobs, fragments and malformed records.
pub fn unpack_record_cdc(raw: &[u8], buf: &mut Vec<u8>) -> (r: Option<bool>)
    ensures
        (r, final(buf)@) == unpack_cdc(raw@, old(buf)@),
{
    if raw.len() < 13 {
        return None;
    }
    let flags: u16 = get_u16(raw, 10);
    if flags & (RHD_FRAGMENT | RHD_INCOMPLETE | RHD_BLOB) != 0 {
        return None;
    }
    let deleted: bool = flags & RHD_DELETED != 0;
    if data_into(raw, buf) {
        Some(deleted)
    } else {
        None
    }
}

// ── Visiting the records of a relation ───────────────────────────────────────

impl Scan {
    /// What `f` finds in the first record in which it finds something. `f` gives `None`
    /// where looking at the record would leave the file.
    pub open spec fn find<T>(self, f: spec_fn(Seq<u8>) -> Option<Option<T>>) -> Option<Option<T>>
        decreases self.recs.len(),
    {
        if self.recs.len() == 0 {
            if self.fault {
                None
            } else {
                Some(None)
            }
        } else {
            match f(self.recs[0]) {
                Some(None) => self.rest().find(f),
                found => found,
            }
        }
    }

    /// Everything that `f` finds, in order.
    pub open spec fn collect<T>(self, f: spec_fn(Seq<u8>) -> Option<Option<T>>) -> Option<Seq<T>>
        decreases self.recs.len(),
    {
        if self.recs.len() == 0 {
            if self.fault {
                None
            } else {
                Some(Seq::empty())
            }
        } else {
            match f(self.recs[0]) {
                None => None,
                Some(None) => self.rest().collect(f),
                Some(Some(x)) => match self.rest().collect(f) {
                    None => None,
                    Some(xs) => Some(seq![x] + xs),
                },
            }
        }
    }

    /// All records but the first.
    pub open spec fn rest(self) -> Scan {
        Scan { recs: self.recs.skip(1), fault: self.fault }
    }

    /// Whether the next record, if there is one, can be read.
    pub open spec fn readable(self) -> bool {
        self.recs.len() > 0 || !self.fault
    }
}

/// `prefix` and what is still collected, put together.
pub open spec fn behind<T>(prefix: Seq<T>, more: Option<Seq<T>>) -> Option<Seq<T>> {
    match more {
        Some(xs) => Some(prefix + xs),
        None => None,
    }
}

/// `collect`, one record at a time: what was found so far stays in front.
pub proof fn lemma_collect_step<T>(
    sc: Scan,
    f: spec_fn(Seq<u8>) -> Option<Option<T>>,
    prefix: Seq<T>,
)
    requires
        sc.recs.len() > 0,
        sc.collect(f) is Some,
    ensures
        f(sc.recs[0]) is Some,
        sc.rest().collect(f) is Some,
        match f(sc.recs[0])->0 {
            None => behind(prefix, sc.collect(f)) == behind(prefix, sc.rest().collect(f)),
            Some(x) => behind(prefix, sc.collect(f)) == behind(
                prefix.push(x),
                sc.rest().collect(f),
            ),
        },
{
    if let Some(Some(x)) = f(sc.recs[0]) {
        let xs = sc.rest().collect(f)->0;
        assert(prefix + (seq![x] + xs) =~= prefix.push(x) + xs);
    }
}

// ── The reader ───────────────────────────────────────────────────────────────

/// A database file that is open for reading. The file's bytes are borrowed, so that a
/// memory map serves as well as a buffer.
pub struct OdsReader<'a> {
    pub data: &'a [u8],
    pub page_size: usize,
    pub ods_ver: u16,
}

impl<'a> View for OdsReader<'a> {
    type V = Image;

    open spec fn view(&self) -> Image {
        Image {
            data: self.data@,
            page_size: self.page_size as int,
            ods_ver: self.ods_ver as int,
        }
    }
}

/// The page size and the structure version that the header of `data` states, or what is
/// wrong with it.
pub open spec fn header(data: Seq<u8>) -> Result<(int, int), OdsError> {
    let page_size = le16(data, 16);
    let ods_ver = le16(data, 18) % 0x8000;
    if data.len() < 256 {
        Err(OdsError::TooSmall)
    } else if page_size < 1024 {
        Err(OdsError::InvalidPageSize(page_size as usize))
    } else if ods_ver < 10 || ods_ver > 100 {
        Err(OdsError::NotRecognised(ods_ver as u16, le16(data, 18) as u16))
    } else if ods_ver < 12 {
        Err(OdsError::NotSupported(ods_ver as u16))
    } else {
        Ok((page_size, ods_ver))
    }
}

/// `sort_unstable` of the standard library's slices, on page numbers: the same numbers,
/// none before a smaller one.
#[verifier::external_body]
pub(crate) fn sort_numbers(v: &mut Vec<u32>)
    ensures
        final(v)@.to_multiset() == old(v)@.to_multiset(),
        forall|i: int, j: int| 0 <= i < j < final(v)@.len() ==> final(v)@[i] <= final(v)@[j],
{
    v.sort_unstable();
}

impl<'a> OdsReader<'a> {
    /// Whether the reader was made by `open`.
    pub open spec fn wf(self) -> bool {
        self@.wf()
    }

    /// Takes the bytes of a database file and reads the header.
    pub fn open(data: &'a [u8]) -> (r: Result<Self, OdsError>)
        ensures
            match r {
                Ok(db) => {
                    &&& db.wf()
                    &&& db@.data == data@
                    &&& header(data@) == Ok::<(int, int), OdsError>(
                        (db@.page_size, db@.ods_ver),
                    )
                },
                Err(e) => header(data@) == Err::<(int, int), OdsError>(e),
            },
    {
        if data.len() < 256 {
            return Err(OdsError::TooSmall);
        }
        let page_size: usize = get_u16(data, 16) as usize;
        let ods_enc: u16 = get_u16(data, 18);
        let ods_ver: u16 = ods_enc % 0x8000;
        if page_size < 1024 {
            return Err(OdsError::InvalidPageSize(page_size));
        }
        if ods_ver < 10 || ods_ver > 100 {
            return Err(OdsError::NotRecognised(ods_ver, ods_enc));
        }
        if ods_ver < 12 {
            return Err(OdsError::NotSupported(ods_ver));
        }
        Ok(Self { data, page_size, ods_ver })
    }

    /// Whether page `n` lies in the file.
    pub fn contains_page(&self, n: u32) -> (r: bool)
        requires
            self.wf(),
        ensures
            r == self@.has_page(n as int),
    {
        assert(0 <= n * self.page_size <= 0xffff_ffff * 0xffff) by (nonlinear_arith)
            requires
                0 <= n <= 0xffff_ffff,
                0 <= self.page_size <= 0xffff,
        ;
        n as u64 * self.page_size as u64 + self.page_size as u64 <= self.data.len() as u64
    }

    pub fn page(&self, n: u32) -> (r: &'a [u8])
        requires
            self.wf(),
            self@.has_page(n as int),
        ensures
            r@ == self@.page(n as int),
            r@.len() == self@.page_size,
    {
        assert(0 <= n * self.page_size) by (nonlinear_arith)
            requires
                0 <= n,
                0 <= self.page_size,
        ;
        assert(self.data.len() <= usize::MAX);
        let off: usize = n as usize * self.page_size;
        slice_subrange(self.data, off, off + self.page_size)
    }

    /// The first pointer page of RDB$PAGES.
    pub fn hdr_pages(&self) -> (r: u32)
        requires
            self.wf(),
            self@.has_page(0),
        ensures
            r == self@.hdr_pages(),
    {
        let h: &[u8] = self.page(0);
        if self.ods_ver >= 14 {
            get_u32(h, 28)
        } else {
            get_u32(h, 20)
        }
    }

    /// Walks the chain of pointer pages of a relation and returns the numbers of its data
    /// pages in ascending order, which makes for sequential access to the disk.
    pub fn data_pages_for(&self, first_pp: u32) -> (r: Vec<u32>)
        requires
            self.wf(),
            self@.data_pages(first_pp as int) is Some,
        ensures
            self@.data_pages(first_pp as int) == Some(r@),
    {
        let mut pages: Vec<u32> = Vec::new();
        let mut pp: u32 = first_pp;
        let ghost img = self@;
        let ghost mut fuel: nat = img.data.len();
        let ghost all = img.chain(first_pp as int, img.data.len());
        while pp != 0
            invariant_except_break
                self.wf(),
                img == self@,
                img.chain(pp as int, fuel) is Some,
                all == behind(pages@, img.chain(pp as int, fuel)),
            ensures
                all == Some(pages@),
            decreases fuel,
        {
            let p: &[u8] = self.page(pp);
            let ghost before = pages@;
            if p[0] != PAG_POINTER {
                assert(pages@ + Seq::<u32>::empty() =~= pages@);
                break ;
            }
            let count: usize = get_u16(p, 24) as usize;
            let next: u32 = get_u32(p, 20);
            let mut i: usize = 0;
            while i < count
                invariant
                    i <= count <= 0xffff,
                    32 + 4 * count <= p@.len(),
                    pages@ == before + page_entries(p@, i as int),
                decreases count - i,
            {
                let dp: u32 = get_u32(p, 32 + i * 4);
                if dp != 0 {
                    pages.push(dp);
                }
                assert(pages@ =~= before + page_entries(p@, i + 1));
                i = i + 1;
            }
            if p[1] % 2 == 1 || next == 0 {
                break ;
            }
            proof {
                let rest = img.chain(next as int, (fuel - 1) as nat)->0;
                assert(before + (page_entries(p@, count as int) + rest) =~= pages@ + rest);
                fuel = (fuel - 1) as nat;
            }
            pp = next;
            proof {
                if pp == 0 {
                    assert(pages@ + Seq::<u32>::empty() =~= pages@);
                }
            }
        }
        let ghost listed = pages@;
        sort_numbers(&mut pages);
        proof {
            let leq = |a: u32, b: u32| a <= b;
            listed.lemma_sort_by_ensures(leq);
            vstd::seq_lib::lemma_sorted_unique(pages@, ascending(listed), leq);
        }
        pages
    }

    /// The raw record in a slot of a data page, as the header of another record points to
    /// it.
    pub fn read_slot_raw(&self, page_num: u32, slot: usize) -> (r: Option<&'a [u8]>)
        requires
            self.wf(),
            self@.slot_raw(page_num as int, slot as int) is Some,
        ensures
            self@.slot_raw(page_num as int, slot as int) == Some(opt_bytes(r)),
    {
        let dp: &'a [u8] = self.page(page_num);
        if dp[0] != PAG_DATA {
            return None;
        }
        let cnt: usize = get_u16(dp, 22) as usize;
        if slot >= cnt {
            return None;
        }
        read_slot(dp, slot)
    }

    /// Puts a fragmented record together, starting with its head. Each fragment is
    /// compressed on its own.
    pub fn reassemble_fragments(&self, head: &'a [u8]) -> (r: Option<Vec<u8>>)
        requires
            self.wf(),
            self@.fragments(head@, Seq::empty(), MAX_FRAGMENTS as nat) is Some,
        ensures
            self@.fragments(head@, Seq::empty(), MAX_FRAGMENTS as nat) == Some(opt_vec(r)),
    {
        let mut out: Vec<u8> = Vec::new();
        let mut cur: &'a [u8] = head;
        let mut left: usize = MAX_FRAGMENTS;
        let ghost whole = self@.fragments(head@, Seq::empty(), MAX_FRAGMENTS as nat);
        while left > 0
            invariant
                self.wf(),
                whole is Some,
                whole == self@.fragments(head@, Seq::empty(), MAX_FRAGMENTS as nat),
                whole == self@.fragments(cur@, out@, left as nat),
            decreases left,
        {
            if cur.len() < 13 {
                return None;
            }
            let fl: u16 = get_u16(cur, 10);
            let incomplete: bool = fl & RHD_INCOMPLETE != 0;
            let hsize: usize = if incomplete {
                22
            } else {
                data_start_of(cur)
            };
            match data_of(cur, hsize) {
                None => {
                    return None;
                },
                Some(piece) => {
                    append(&mut out, piece.as_slice());
                },
            }
            if !incomplete {
                return Some(out);
            }
            let f_page: u32 = get_u32(cur, 16);
            let f_line: usize = get_u16(cur, 20) as usize;
            match self.read_slot_raw(f_page, f_line) {
                None => {
                    return None;
                },
                Some(next) => {
                    cur = next;
                },
            }
            left = left - 1;
        }
        None
    }

    /// Unpacks a whole record, old versions only if `allow_chain` is set.
    pub fn unpack_record_ex(&self, raw: &[u8], allow_chain: bool) -> (r: Option<Vec<u8>>)
        ensures
            opt_vec(r) == unpack(raw@, allow_chain),
    {
        if raw.len() < 13 {
            return None;
        }
        let flags: u16 = get_u16(raw, 10);
        if flags & (RHD_DELETED | RHD_FRAGMENT | RHD_INCOMPLETE | RHD_BLOB) != 0 {
            return None;
        }
        if !allow_chain && flags & RHD_CHAIN != 0 {
            return None;
        }
        data_of(raw, data_start_of(raw))
    }

    pub fn unpack_record(&self, raw: &[u8]) -> (r: Option<Vec<u8>>)
        ensures
            opt_vec(r) == unpack(raw@, false),
    {
        self.unpack_record_ex(raw, false)
    }

    /// Unpacks a record of a system relation. Rows with many long names do not fit a slot
    /// and are split into fragments: the head leads to the whole record, the
    /// continuations are skipped.
    pub fn unpack_record_meta(&self, raw: &'a [u8]) -> (r: Option<Vec<u8>>)
        requires
            self.wf(),
            self@.unpack_meta(raw@) is Some,
        ensures
            self@.unpack_meta(raw@) == Some(opt_vec(r)),
    {
        if raw.len() < 13 {
            return None;
        }
        let flags: u16 = get_u16(raw, 10);
        if flags & (RHD_DELETED | RHD_FRAGMENT | RHD_BLOB) != 0 {
            return None;
        }
        if flags & RHD_INCOMPLETE != 0 {
            return self.reassemble_fragments(raw);
        }
        data_of(raw, data_start_of(raw))
    }

    /// All unpacked records of a system relation.
    pub fn records_meta(&self, first_pp: u32) -> (r: Vec<Vec<u8>>)
        requires
            self.wf(),
            self@.relation(first_pp as int).collect(meta_of(self@)) is Some,
        ensures
            self@.relation(first_pp as int).collect(meta_of(self@)) == Some(byte_seqs(r@)),
    {
        let mut out: Vec<Vec<u8>> = Vec::new();
        let ghost f = meta_of(self@);
        let ghost all = self@.relation(first_pp as int).collect(f);
        let mut cur: SlotCursor = SlotCursor::new(self, first_pp);
        assert(byte_seqs(out@) =~= Seq::empty());
        assert(all == behind(byte_seqs(out@), cur.left().collect(f))) by {
            assert(Seq::<Seq<u8>>::empty() + all->0 =~= all->0);
        }
        loop
            invariant_except_break
                cur.wf(),
                cur.db() == self@,
                self.wf(),
                f == meta_of(self@),
                cur.left().collect(f) is Some,
                all == behind(byte_seqs(out@), cur.left().collect(f)),
            ensures
                all == Some(byte_seqs(out@)),
            decreases cur.left().recs.len(),
        {
            let ghost before = cur.left();
            match cur.next() {
                None => {
                    assert(byte_seqs(out@) + Seq::<Seq<u8>>::empty() =~= byte_seqs(out@));
                    break ;
                },
                Some(raw) => {
                    proof {
                        lemma_collect_step(before, f, byte_seqs(out@));
                    }
                    let ghost prefix = byte_seqs(out@);
                    if let Some(rec) = self.unpack_record_meta(raw) {
                        out.push(rec);
                        assert(byte_seqs(out@) =~= prefix.push(rec@));
                    }
                },
            }
        }
        out
    }

    /// Looks up the first pointer page of a relation in RDB$PAGES, as far as it can be read.
    pub fn try_first_pp(&self, relation_id: u16) -> (r: Option<Option<u32>>)
        requires
            self.wf(),
        ensures
            r == self@.first_pp(relation_id as int),
    {
        if !self.contains_page(0) {
            return None;
        }
        let pp0: u32 = self.hdr_pages();
        if self.try_data_pages(pp0).is_none() {
            return None;
        }
        let ghost f = pointer_page_in(relation_id as int);
        let ghost want = self@.first_pp(relation_id as int);
        let mut cur: SlotCursor = SlotCursor::new(self, pp0);
        loop
            invariant
                cur.wf(),
                f == pointer_page_in(relation_id as int),
                want == self@.first_pp(relation_id as int),
                want == cur.left().find(f),
            decreases cur.left().recs.len(),
        {
            match cur.try_next() {
                None => {
                    return None;
                },
                Some(None) => {
                    return Some(None);
                },
                Some(Some(raw)) => {
                    if let Some(rec) = self.unpack_record(raw) {
                        let rec: &[u8] = rec.as_slice();
                        if rec.len() >= 18 {
                            let rid: u16 = get_u16(rec, 8);
                            let ptype: u16 = get_u16(rec, 16);
                            let seq: u32 = get_u32(rec, 12);
                            if rid == relation_id && ptype == 4 && seq == 0 {
                                return Some(Some(get_u32(rec, 4)));
                            }
                        }
                    }
                },
            }
        }
    }

    /// Looks up the first pointer page of a relation in RDB$PAGES.
    pub fn find_first_pp(&self, relation_id: u16) -> (r: Option<u32>)
        requires
            self.wf(),
            self@.first_pp(relation_id as int) is Some,
        ensures
            self@.first_pp(relation_id as int) == Some(r),
    {
        match self.try_first_pp(relation_id) {
            Some(r) => r,
            None => None,
        }
    }
}

/// The bytes of a slice, if there is one.
pub open spec fn opt_bytes(r: Option<&[u8]>) -> Option<Seq<u8>> {
    match r {
        Some(s) => Some(s@),
        None => None,
    }
}

/// The bytes of a vector, if there is one.
pub open spec fn opt_vec(r: Option<Vec<u8>>) -> Option<Seq<u8>> {
    match r {
        Some(v) => Some(v@),
        None => None,
    }
}

/// The bytes of each vector.
pub open spec fn byte_seqs(v: Seq<Vec<u8>>) -> Seq<Seq<u8>> {
    v.map_values(|x: Vec<u8>| x@)
}

/// The data of a record of a system relation.
pub open spec fn meta_of(img: Image) -> spec_fn(Seq<u8>) -> Option<Option<Seq<u8>>> {
    |raw: Seq<u8>| img.unpack_meta(raw)
}

/// The page that a record of RDB$PAGES names, if it is the first pointer page (type 4,
/// sequence 0) of the relation.
///
/// The fields are: null flags at 0, page number at 4, relation at 8, sequence at 12, page
/// type at 16.
pub open spec fn pointer_page_in(relation_id: int) -> spec_fn(Seq<u8>) -> Option<Option<u32>> {
    |raw: Seq<u8>|
        Some(
            match unpack(raw, false) {
                Some(rec) => if rec.len() >= 18 && le16(rec, 8) == relation_id && le16(rec, 16) == 4
                    && le32(rec, 12) == 0 {
                    Some(le32(rec, 4) as u32)
                } else {
                    None
                },
                None => None,
            },
        )
}

impl Image {
    /// The first pointer page of a relation: `None` where looking for it leaves the file,
    /// `Some(None)` where RDB$PAGES does not know it.
    pub open spec fn first_pp(self, relation_id: int) -> Option<Option<u32>> {
        if self.has_page(0) {
            self.relation(self.hdr_pages() as int).find(pointer_page_in(relation_id))
        } else {
            None
        }
    }
}

/// The record in slot `s` of a page.
pub(crate) fn read_slot<'p>(p: &'p [u8], s: usize) -> (r: Option<&'p [u8]>)
    requires
        slot_listed(p@, s as int),
    ensures
        opt_bytes(r) == slot(p@, s as int),
{
    assert(p.len() <= usize::MAX);
    let off: usize = get_u16(p, 24 + s * 4) as usize;
    let len: usize = get_u16(p, 26 + s * 4) as usize;
    if off == 0 || len == 0 || off + len > p.len() {
        None
    } else {
        Some(slice_subrange(p, off, off + len))
    }
}

/// A position in the records of a relation.
pub struct SlotCursor<'d, 'a> {
    reader: &'d OdsReader<'a>,
    dps: Vec<u32>,
    at: usize,
    page: &'a [u8],
    slot: usize,
    count: usize,
}

impl<'d, 'a> SlotCursor<'d, 'a> {
    pub closed spec fn wf(self) -> bool {
        &&& self.reader.wf()
        &&& self.at <= self.dps@.len()
        &&& self.slot <= self.count <= 0xffff
    }

    pub closed spec fn db(self) -> Image {
        self.reader@
    }

    /// The records that are still to come.
    pub closed spec fn left(self) -> Scan {
        page_scan(self.page@, self.slot as int, self.count as int).then_scan(
            self.reader@.scan(self.dps@.skip(self.at as int)),
        )
    }

    pub fn new(reader: &'d OdsReader<'a>, first_pp: u32) -> (r: Self)
        requires
            reader.wf(),
            reader@.data_pages(first_pp as int) is Some,
        ensures
            r.wf(),
            r.db() == reader@,
            r.left() == reader@.relation(first_pp as int),
    {
        let dps: Vec<u32> = reader.data_pages_for(first_pp);
        let page: &'a [u8] = slice_subrange(reader.data, 0, 0);
        let r: Self = SlotCursor { reader, dps, at: 0, page, slot: 0, count: 0 };
        assert(r.dps@.skip(0) =~= r.dps@);
        assert(r.left() =~= reader@.relation(first_pp as int));
        r
    }

    /// The next record: `Some(None)` at the end, `None` where it cannot be read.
    pub fn try_next(&mut self) -> (r: Option<Option<&'a [u8]>>)
        requires
            old(self).wf(),
        ensures
            final(self).wf(),
            final(self).db() == old(self).db(),
            match r {
                Some(Some(raw)) => {
                    &&& old(self).left().recs.len() > 0
                    &&& raw@ == old(self).left().recs[0]
                    &&& final(self).left() == old(self).left().rest()
                },
                Some(None) => {
                    &&& old(self).left().recs.len() == 0
                    &&& !old(self).left().fault
                    &&& final(self).left() == old(self).left()
                },
                None => !old(self).left().readable(),
            },
    {
        loop
            invariant
                self.wf(),
                self.db() == old(self).db(),
                self.left() == old(self).left(),
            decreases self.dps@.len() - self.at, self.count - self.slot,
        {
            let ghost before = *self;
            if self.slot < self.count {
                let s: usize = self.slot;
                let p: &'a [u8] = self.page;
                if p.len() < 28 || s > (p.len() - 28) / 4 {
                    return None;
                }
                self.slot = s + 1;
                if let Some(raw) = read_slot(p, s) {
                    assert(self.left().recs =~= before.left().recs.skip(1));
                    return Some(Some(raw));
                }
            } else if self.at < self.dps.len() {
                let n: u32 = self.dps[self.at];
                assert(before.dps@.skip(before.at as int)[0] == n);
                assert(before.dps@.skip(before.at as int).skip(1) =~= before.dps@.skip(
                    before.at + 1,
                ));
                let ghost tail = self.reader@.scan(before.dps@.skip(before.at as int));
                assert(before.left() =~= tail);
                if !self.reader.contains_page(n) {
                    return None;
                }
                let p: &'a [u8] = self.reader.page(n);
                self.at = self.at + 1;
                self.page = p;
                self.slot = 0;
                self.count = if p[0] == PAG_DATA {
                    get_u16(p, 22) as usize
                } else {
                    0
                };
                assert(self.left() == tail);
            } else {
                return Some(None);
            }
        }
    }

    /// The next record; `None` at the end.
    pub fn next(&mut self) -> (r: Option<&'a [u8]>)
        requires
            old(self).wf(),
            old(self).left().readable(),
        ensures
            final(self).wf(),
            final(self).db() == old(self).db(),
            match r {
                Some(raw) => {
                    &&& old(self).left().recs.len() > 0
                    &&& raw@ == old(self).left().recs[0]
                    &&& final(self).left() == old(self).left().rest()
                },
                None => {
                    &&& old(self).left().recs.len() == 0
                    &&& !old(self).left().fault
                    &&& final(self).left() == old(self).left()
                },
            },
    {
        match self.try_next() {
            Some(r) => r,
            None => None,
        }
    }
}

} // verus!
