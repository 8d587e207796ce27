//! What the pages, records and blobs of a database file hold.
use crate::blob::{blob_id_at, chosen_format, descriptors, latest_format, segments, BlobId};
use crate::bytes::{le16, le32};
use crate::ods::{
    flagged, header, page_entries, payload, slot, transaction, unpack, unpack_cdc, Image, OdsError,
    RHD_BLOB, RHD_CHAIN, RHD_DELETED, RHD_FRAGMENT, RHD_INCOMPLETE,
};
use crate::sqz::{sqz, unpacked};
use crate::value_laws::{lemma_little2, lemma_little4, little_endian};
use vstd::prelude::*;

verus! {

// ── Compression ──────────────────────────────────────────────────────────────

/// A control byte up to 127 stands before so many bytes that are taken as they are.
pub proof fn law_literal_bytes(data: Seq<u8>, rest: Seq<u8>, out: Seq<u8>)
    requires
        data.len() <= 127,
        out.len() + data.len() <= 262_144,
    ensures
        sqz(seq![data.len() as u8] + data + rest, out) == sqz(rest, out + data),
{
    let s = seq![data.len() as u8] + data + rest;
    let n = data.len() as int;
    assert(s[0] == data.len() as u8);
    assert(s.subrange(1, 1 + n) =~= data);
    assert(s.skip(1 + n) =~= rest);
}

/// A control byte of 256 - n, for n from 3 to 128, stands before a byte that is repeated n
/// times.
pub proof fn law_repeated_byte(b: u8, n: int, rest: Seq<u8>, out: Seq<u8>)
    requires
        3 <= n <= 128,
        out.len() + n <= 262_144,
    ensures
        sqz(seq![(256 - n) as u8, b] + rest, out) == sqz(rest, out + Seq::new(n as nat, |i: int| b)),
{
    let s = seq![(256 - n) as u8, b] + rest;
    assert(s[0] == (256 - n) as u8 && s[1] == b);
    assert(s.skip(2) =~= rest);
    assert(crate::sqz::repeat(b, n) =~= Seq::new(n as nat, |i: int| b));
}

/// A control byte of 255 stands before a count of two bytes, and one of 254 before a count of
/// four, each with the byte that is repeated behind it.
pub proof fn law_long_repeats(count: Seq<u8>, b: u8, n: int, rest: Seq<u8>, out: Seq<u8>)
    requires
        count.len() == 2 || count.len() == 4,
        n == little_endian(count),
        out.len() + n <= 262_144,
    ensures
        count.len() == 2 ==> sqz(seq![255u8] + count + seq![b] + rest, out) == sqz(
            rest,
            out + Seq::new(n as nat, |i: int| b),
        ),
        count.len() == 4 ==> sqz(seq![254u8] + count + seq![b] + rest, out) == sqz(
            rest,
            out + Seq::new(n as nat, |i: int| b),
        ),
{
    assert(crate::sqz::repeat(b, n) =~= Seq::new(n as nat, |i: int| b));
    if count.len() == 2 {
        let s = seq![255u8] + count + seq![b] + rest;
        assert(s[0] == 255 && s[3] == b);
        assert(s.subrange(1, 3) =~= count);
        lemma_little2(s, 1);
        assert(s.skip(4) =~= rest);
    } else {
        let s = seq![254u8] + count + seq![b] + rest;
        assert(s[0] == 254 && s[5] == b);
        assert(s.subrange(1, 5) =~= count);
        lemma_little4(s, 1);
        assert(s.skip(6) =~= rest);
    }
}

/// Nothing packed is nothing. A run that is cut off is refused, and so is a record that grows
/// over 262144 bytes.
pub proof fn law_end_of_packed_data(s: Seq<u8>, out: Seq<u8>, data: Seq<u8>, rest: Seq<u8>)
    ensures
        sqz(Seq::empty(), out) == (true, out),
        unpacked(Seq::empty()) == Some(Seq::<u8>::empty()),
        0 < s.len() && s[0] <= 127 && s.len() < 1 + s[0] ==> unpacked(s) is None,
        s.len() == 1 && s[0] >= 128 ==> unpacked(s) is None,
        data.len() <= 127 && out.len() + data.len() > 262_144 ==> !sqz(
            seq![data.len() as u8] + data + rest,
            out,
        ).0,
{
    let t = seq![data.len() as u8] + data + rest;
    if data.len() <= 127 {
        assert(t[0] == data.len() as u8);
        assert(t.subrange(1, 1 + data.len() as int) =~= data);
    }
}

// ── Records ──────────────────────────────────────────────────────────────────

/// A bit of the flags of a record, which stand in its eleventh and twelfth byte.
pub open spec fn has_flag(raw: Seq<u8>, bit: int) -> bool {
    if bit < 256 {
        (raw[10] as int / bit) % 2 == 1
    } else {
        (raw[11] as int / (bit / 256)) % 2 == 1
    }
}

pub proof fn lemma_flags(raw: Seq<u8>)
    ensures
        flagged(raw, 1) <==> has_flag(raw, 1),
        flagged(raw, 2) <==> has_flag(raw, 2),
        flagged(raw, 4) <==> has_flag(raw, 4),
        flagged(raw, 8) <==> has_flag(raw, 8),
        flagged(raw, 16) <==> has_flag(raw, 16),
        flagged(raw, 32) <==> has_flag(raw, 32),
        flagged(raw, 1024) <==> has_flag(raw, 1024),
        flagged(raw, 2048) <==> has_flag(raw, 2048),
        flagged(raw, RHD_DELETED | RHD_FRAGMENT | RHD_INCOMPLETE | RHD_BLOB) <==> has_flag(raw, 1)
            || has_flag(raw, 4) || has_flag(raw, 8) || has_flag(raw, 16),
        flagged(raw, RHD_FRAGMENT | RHD_INCOMPLETE | RHD_BLOB) <==> has_flag(raw, 4) || has_flag(
            raw,
            8,
        ) || has_flag(raw, 16),
        flagged(raw, RHD_DELETED | RHD_FRAGMENT | RHD_BLOB) <==> has_flag(raw, 1) || has_flag(
            raw,
            4,
        ) || has_flag(raw, 16),
        flagged(raw, RHD_DELETED | RHD_FRAGMENT | RHD_BLOB | RHD_CHAIN) <==> has_flag(raw, 1)
            || has_flag(raw, 4) || has_flag(raw, 16) || has_flag(raw, 2),
{
    let f: u16 = le16(raw, 10) as u16;
    assert((f & 1 != 0 <==> f % 2 == 1) && (f & 2 != 0 <==> (f / 2) % 2 == 1) && (f & 4 != 0 <==> (f
        / 4) % 2 == 1) && (f & 8 != 0 <==> (f / 8) % 2 == 1) && (f & 16 != 0 <==> (f / 16) % 2 == 1)
        && (f & 32 != 0 <==> (f / 32) % 2 == 1) && (f & 1024 != 0 <==> (f / 1024) % 2 == 1) && (f
        & 2048 != 0 <==> (f / 2048) % 2 == 1)) by (bit_vector);
    assert((f & (1u16 | 4 | 8 | 16) != 0 <==> (f & 1 != 0 || f & 4 != 0 || f & 8 != 0 || f & 16
        != 0)) && (f & (4u16 | 8 | 16) != 0 <==> (f & 4 != 0 || f & 8 != 0 || f & 16 != 0)) && (f
        & (1u16 | 4 | 16) != 0 <==> (f & 1 != 0 || f & 4 != 0 || f & 16 != 0)) && (f & (1u16 | 4
        | 16 | 2) != 0 <==> (f & 1 != 0 || f & 4 != 0 || f & 16 != 0 || f & 2 != 0)))
        by (bit_vector);
    let a = raw[10] as int;
    let b = raw[11] as int;
    assert((a + 256 * b) % 2 == a % 2);
    assert((a + 256 * b) / 2 == a / 2 + 128 * b);
    assert((a + 256 * b) / 4 == a / 4 + 64 * b);
    assert((a + 256 * b) / 8 == a / 8 + 32 * b);
    assert((a + 256 * b) / 16 == a / 16 + 16 * b);
    assert((a + 256 * b) / 32 == a / 32 + 8 * b);
    assert((a + 256 * b) / 1024 == b / 4);
    assert((a + 256 * b) / 2048 == b / 8);
}

/// The data of a record stands behind a header of 13 bytes, or of 16 where the number of its
/// transaction is long. It is packed unless a flag says otherwise.
pub proof fn law_data_stands_behind_the_header(raw: Seq<u8>)
    requires
        raw.len() >= 13,
    ensures
        ({
            let start: int = if has_flag(raw, 1024) {
                16
            } else {
                13
            };
            payload(raw) == if raw.len() <= start {
                None
            } else if has_flag(raw, 2048) {
                Some(raw.skip(start))
            } else {
                unpacked(raw.skip(start))
            }
        }),
{
    lemma_flags(raw);
}

/// A record is data of its own only if it is whole and neither deleted nor a blob; an older
/// version counts where it is asked for.
pub proof fn law_only_whole_live_records_are_unpacked(raw: Seq<u8>, older: bool)
    requires
        raw.len() >= 13,
    ensures
        unpack(raw, older) == (if has_flag(raw, 1) || has_flag(raw, 4) || has_flag(raw, 8)
            || has_flag(raw, 16) || (has_flag(raw, 2) && !older) {
            None
        } else {
            payload(raw)
        }),
{
    lemma_flags(raw);
}

/// A record belongs to the transaction whose number stands in its first four bytes, with two
/// more bytes at 14 where the number is long. A piece of a record and a blob belong to none.
pub proof fn law_record_has_its_transaction(raw: Seq<u8>)
    ensures
        raw.len() < 13 ==> transaction(raw) is None,
        raw.len() >= 13 && (has_flag(raw, 4) || has_flag(raw, 8) || has_flag(raw, 16))
            ==> transaction(raw) is None,
        raw.len() >= 13 && !has_flag(raw, 4) && !has_flag(raw, 8) && !has_flag(raw, 16)
            && !has_flag(raw, 1024) ==> transaction(raw) is Some && transaction(raw)->0
            == little_endian(raw.subrange(0, 4)),
        raw.len() >= 16 && !has_flag(raw, 4) && !has_flag(raw, 8) && !has_flag(raw, 16)
            && has_flag(raw, 1024) ==> transaction(raw) is Some && transaction(raw)->0
            == little_endian(raw.subrange(0, 4)) + 0x1_0000_0000 * little_endian(
            raw.subrange(14, 16),
        ),
{
    lemma_flags(raw);
    if raw.len() >= 13 {
        lemma_little4(raw, 0);
    }
    if raw.len() >= 16 {
        lemma_little2(raw, 14);
    }
}

/// A change scan tells a deleted record from a live one, and leaves out pieces and blobs.
pub proof fn law_change_scan_tells_deleted_records(raw: Seq<u8>, buf: Seq<u8>)
    requires
        raw.len() >= 13,
    ensures
        has_flag(raw, 4) || has_flag(raw, 8) || has_flag(raw, 16) ==> unpack_cdc(raw, buf).0 is None,
        !has_flag(raw, 4) && !has_flag(raw, 8) && !has_flag(raw, 16) ==> match payload(raw) {
            Some(data) => unpack_cdc(raw, buf) == (Some(has_flag(raw, 1)), data),
            None => unpack_cdc(raw, buf).0 is None,
        },
{
    lemma_flags(raw);
}

// ── Pages ────────────────────────────────────────────────────────────────────

/// A record stands where the directory of its page says: so many bytes from its offset on.
/// Nothing stands where either is 0 or the record would leave the page.
pub proof fn law_record_stands_in_its_page(p: Seq<u8>, s: int)
    requires
        0 <= s,
        24 + 4 * s + 4 <= p.len(),
    ensures
        ({
            let off = little_endian(p.subrange(24 + 4 * s, 26 + 4 * s));
            let len = little_endian(p.subrange(26 + 4 * s, 28 + 4 * s));
            slot(p, s) == if off > 0 && len > 0 && off + len <= p.len() {
                Some(p.subrange(off, off + len))
            } else {
                None
            }
        }),
{
    lemma_little2(p, 24 + 4 * s);
    lemma_little2(p, 26 + 4 * s);
}

/// A pointer page lists the pages whose numbers stand in it, in their order, without zeros.
pub proof fn law_pointer_page_lists_its_pages(p: Seq<u8>, n: int, page: u32)
    requires
        0 <= n,
        32 + 4 * n <= p.len(),
    ensures
        page_entries(p, n).contains(page) <==> page != 0 && exists|k: int|
            0 <= k < n && page == little_endian(#[trigger] p.subrange(32 + 4 * k, 36 + 4 * k)),
    decreases n,
{
    if n > 0 {
        let before = page_entries(p, n - 1);
        let now = page_entries(p, n);
        law_pointer_page_lists_its_pages(p, n - 1, page);
        lemma_little4(p, 32 + 4 * (n - 1));
        let e = le32(p, 32 + 4 * (n - 1));
        assert(p.subrange(32 + 4 * (n - 1), 36 + 4 * (n - 1)) == p.subrange(
            32 + 4 * (n - 1),
            32 + 4 * (n - 1) + 4,
        ));
        if before.contains(page) {
            let i = choose|i: int| 0 <= i < before.len() && before[i] == page;
            assert(now[i] == page);
        }
        if now.contains(page) && !before.contains(page) {
            let i = choose|i: int| 0 <= i < now.len() && now[i] == page;
            if i < before.len() {
                assert(before[i] == page);
            }
            assert(e == page);
        }
        if page != 0 && e == page {
            assert(now[before.len() as int] == page);
        }
    }
}

/// The data pages of a table are those that its pointer pages list, each as often, by their
/// numbers.
pub proof fn law_data_pages_ascend(img: Image, pp: int)
    requires
        img.data_pages(pp) is Some,
    ensures
        forall|i: int, j: int|
            0 <= i < j < img.data_pages(pp)->0.len() ==> img.data_pages(pp)->0[i]
                <= img.data_pages(pp)->0[j],
        img.chain(pp, img.data.len()) is Some,
        img.data_pages(pp)->0.to_multiset() == img.chain(pp, img.data.len())->0.to_multiset(),
{
    let s = img.chain(pp, img.data.len())->0;
    let leq = |a: u32, b: u32| a <= b;
    s.lemma_sort_by_ensures(leq);
    let r = img.data_pages(pp)->0;
    assert(r == s.sort_by(leq));
    assert forall|i: int, j: int| 0 <= i < j < r.len() implies r[i] <= r[j] by {
        assert(leq(r[i], r[j]));
    }
}

/// A relation goes on over the pointer page that the one before names, until one says that it
/// is the last.
pub proof fn law_pointer_pages_are_followed(img: Image, pp: int, fuel: nat)
    requires
        0 < pp,
        fuel > 0,
        img.wf(),
        img.has_page(pp),
        img.page(pp)[0] == 4,
    ensures
        ({
            let p = img.page(pp);
            let count = little_endian(p.subrange(24, 26));
            let next = little_endian(p.subrange(20, 24));
            &&& 32 + 4 * count > p.len() ==> img.chain(pp, fuel) is None
            &&& 32 + 4 * count <= p.len() && (p[1] % 2 == 1 || next == 0) ==> img.chain(pp, fuel)
                == Some(page_entries(p, count))
            &&& 32 + 4 * count <= p.len() && p[1] % 2 == 0 && next != 0 && img.chain(
                next,
                (fuel - 1) as nat,
            ) is Some ==> img.chain(pp, fuel) == Some(
                page_entries(p, count) + img.chain(next, (fuel - 1) as nat)->0,
            )
        }),
{
    assert(pp * img.page_size >= 0) by (nonlinear_arith)
        requires
            0 < pp,
            1024 <= img.page_size,
    ;
    let p = img.page(pp);
    assert(p.len() == img.page_size);
    lemma_little2(p, 24);
    lemma_little4(p, 20);
}

/// A file is opened by its header: a page size of at least 1024 in the bytes 16 and 17, and in
/// the bytes 18 and 19, without the highest bit, a version from 12 to 100.
pub proof fn law_header_is_read(data: Seq<u8>)
    requires
        data.len() >= 256,
    ensures
        ({
            let size = little_endian(data.subrange(16, 18));
            let word = little_endian(data.subrange(18, 20));
            let version = if word >= 0x8000 {
                word - 0x8000
            } else {
                word
            };
            &&& header(data) is Ok <==> size >= 1024 && 12 <= version <= 100
            &&& header(data) is Ok ==> header(data) == Ok::<(int, int), OdsError>((size, version))
        }),
{
    lemma_little2(data, 16);
    lemma_little2(data, 18);
}

// ── Formats ──────────────────────────────────────────────────────────────────

/// A format is a count and so many descriptors of twelve bytes: the type, the scale, the
/// length, the subtype, the flags and the offset.
pub proof fn law_format_is_read(data: Seq<u8>, i: int)
    requires
        2 <= data.len(),
    ensures
        ({
            let count = little_endian(data.subrange(0, 2));
            &&& descriptors(data) is Ok <==> data.len() >= 2 + 12 * count
            &&& descriptors(data) is Ok ==> descriptors(data)->Ok_0.len() == count
            &&& descriptors(data) is Ok && 0 <= i < count ==> {
                let d = descriptors(data)->Ok_0[i];
                let at = 2 + 12 * i;
                &&& d.dtype == data[at]
                &&& (d.scale - data[at + 1]) % 256 == 0
                &&& d.length == little_endian(data.subrange(at + 2, at + 4))
                &&& (d.sub_type - little_endian(data.subrange(at + 4, at + 6))) % 0x1_0000 == 0
                &&& d.flags == little_endian(data.subrange(at + 6, at + 8))
                &&& d.offset == little_endian(data.subrange(at + 8, at + 12))
            }
        }),
{
    lemma_little2(data, 0);
    let count = le16(data, 0);
    if descriptors(data) is Ok && 0 <= i < count {
        let at = 2 + 12 * i;
        lemma_little2(data, at + 2);
        lemma_little2(data, at + 4);
        lemma_little2(data, at + 6);
        lemma_little4(data, at + 8);
    }
}

/// The latest format is the one with the highest number, and any other is found by its own.
pub proof fn law_format_is_chosen(entries: Seq<(u16, BlobId)>, ver: u16)
    requires
        entries.len() > 0,
    ensures
        exists|k: int|
            {
                &&& 0 <= k < entries.len()
                &&& chosen_format(entries, 0xffff) == Some((#[trigger] entries[k]).1)
                &&& forall|i: int| 0 <= i < entries.len() ==> (#[trigger] entries[i]).0 <= entries[k].0
            },
        ver != 0xffff ==> match chosen_format(entries, ver) {
            Some(bid) => exists|k: int|
                0 <= k < entries.len() && #[trigger] entries[k] == (ver, bid),
            None => forall|i: int| 0 <= i < entries.len() ==> (#[trigger] entries[i]).0 != ver,
        },
{
    let k = lemma_latest(entries);
    assert(chosen_format(entries, 0xffff) == Some(entries[k].1));
    lemma_format_with(entries, ver);
}

proof fn lemma_latest(entries: Seq<(u16, BlobId)>) -> (k: int)
    requires
        entries.len() > 0,
    ensures
        0 <= k < entries.len(),
        latest_format(entries) == entries[k],
        forall|i: int| 0 <= i < entries.len() ==> (#[trigger] entries[i]).0 <= entries[k].0,
    decreases entries.len(),
{
    if entries.len() == 1 {
        0
    } else {
        let front = entries.drop_last();
        let k = lemma_latest(front);
        assert(front[k] == entries[k]);
        assert(forall|i: int| 0 <= i < front.len() ==> front[i] == entries[i]);
        if entries.last().0 >= entries[k].0 {
            assert forall|i: int| 0 <= i < entries.len() implies (#[trigger] entries[i]).0
                <= entries.last().0 by {
                if i < front.len() {
                    assert(front[i].0 <= front[k].0);
                }
            }
            entries.len() - 1
        } else {
            assert forall|i: int| 0 <= i < entries.len() implies (#[trigger] entries[i]).0
                <= entries[k].0 by {
                if i < front.len() {
                    assert(front[i].0 <= front[k].0);
                }
            }
            k
        }
    }
}

proof fn lemma_format_with(entries: Seq<(u16, BlobId)>, ver: u16)
    ensures
        match crate::blob::format_with(entries, ver) {
            Some(bid) => exists|k: int|
                0 <= k < entries.len() && #[trigger] entries[k] == (ver, bid),
            None => forall|i: int| 0 <= i < entries.len() ==> (#[trigger] entries[i]).0 != ver,
        },
    decreases entries.len(),
{
    if entries.len() > 0 {
        let rest = entries.skip(1);
        assert(forall|i: int| 0 < i < entries.len() ==> entries[i] == rest[i - 1]);
        if entries[0].0 == ver {
            assert(entries[0] == (ver, entries[0].1));
        } else {
            lemma_format_with(rest, ver);
            if let Some(bid) = crate::blob::format_with(rest, ver) {
                let k = choose|k: int|
                    0 <= k < rest.len() && #[trigger] rest[k] == (ver, bid);
                assert(entries[k + 1] == (ver, bid));
            }
        }
    }
}

// ── Blobs ────────────────────────────────────────────────────────────────────

/// The number of a blob is that of its relation, in two bytes, and its own in five: four low
/// ones behind the highest.
pub proof fn law_blob_number(rec: Seq<u8>, i: int)
    requires
        0 <= i,
        i + 8 <= rec.len(),
    ensures
        blob_id_at(rec, i).relation == little_endian(rec.subrange(i, i + 2)),
        blob_id_at(rec, i).number == little_endian(rec.subrange(i + 4, i + 8)) + 0x1_0000_0000 * rec[
            i + 3],
{
    lemma_little2(rec, i);
    lemma_little4(rec, i + 4);
}

/// A segment is its length in two bytes and so many bytes; the segments of a blob are put
/// together without their lengths.
pub proof fn law_segments_are_joined(
    before: Seq<u8>,
    count: Seq<u8>,
    data: Seq<u8>,
    rest: Seq<u8>,
    n: int,
)
    requires
        n > 0,
        count.len() == 2,
        little_endian(count) == data.len(),
    ensures
        segments(before + count + data + rest, before.len() as int, n) == data + segments(
            before + count + data + rest,
            (before.len() + 2 + data.len()) as int,
            n - 1,
        ),
        segments(before, before.len() as int, n).len() == 0,
{
    let s = before + count + data + rest;
    let i = before.len() as int;
    assert(s.subrange(i, i + 2) =~= count);
    lemma_little2(s, i);
    assert(s.subrange(i + 2, i + 2 + data.len()) =~= data);
}

/// Why a file is not opened: it is too small, its page size is, or its version is none that is
/// known or an old one, each with the numbers it has.
pub proof fn law_strange_file_is_refused(data: Seq<u8>)
    ensures
        data.len() < 256 ==> header(data) == Err::<(int, int), OdsError>(OdsError::TooSmall),
        data.len() >= 256 ==> ({
            let size = little_endian(data.subrange(16, 18));
            let word = little_endian(data.subrange(18, 20));
            let version = if word >= 0x8000 {
                word - 0x8000
            } else {
                word
            };
            &&& size < 1024 ==> header(data) == Err::<(int, int), OdsError>(
                OdsError::InvalidPageSize(size as usize),
            )
            &&& size >= 1024 && (version < 10 || version > 100) ==> header(data) == Err::<
                (int, int),
                OdsError,
            >(OdsError::NotRecognised(version as u16, word as u16))
            &&& size >= 1024 && (version == 10 || version == 11) ==> header(data) == Err::<
                (int, int),
                OdsError,
            >(OdsError::NotSupported(version as u16))
        }),
{
    if data.len() >= 256 {
        lemma_little2(data, 16);
        lemma_little2(data, 18);
    }
}

} // verus!
