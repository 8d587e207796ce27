//! Where the records of a relation, its blobs and the rows of a whole load come from.
use crate::blob::{blob_header, chosen_format, descriptors, format_in, BlobId};
use crate::bytes::{le16, le32};
use crate::catalog_laws::{lemma_collected, lemma_collected_from, lemma_found, row_of};
use crate::copy_laws::{
    column_values, fits_field, law_row_is_read, law_stream_is_read, lemma_value_fits, read_row,
    read_stream,
};
use crate::extract::{copy_row_in, copy_slot, copy_slots_of, copy_stream, slot_value};
use crate::ods::{
    page_scan, payload, pointer_page_in, slot, slot_count, slot_listed, unpack, Desc, Image,
    OdsError, Scan,
};
use crate::record_laws::{has_flag, lemma_flags};
use crate::value_laws::{lemma_little2, lemma_little4, lemma_little8, little_endian};
use vstd::prelude::*;

verus! {

// ── The records of a relation ────────────────────────────────────────────────

/// Whether a record stands on a data page, at a place that the directory of the page has.
pub open spec fn stands_on(img: Image, n: int, raw: Seq<u8>) -> bool {
    &&& img.page(n)[0] == 5
    &&& exists|s: int|
        0 <= s < img.page(n)[22] + 0x100 * img.page(n)[23] && #[trigger] slot(img.page(n), s)
            == Some(raw)
}

proof fn lemma_page_scan(p: Seq<u8>, from: int, n: int, raw: Seq<u8>)
    requires
        !page_scan(p, from, n).fault,
    ensures
        page_scan(p, from, n).recs.contains(raw) <==> exists|s: int|
            from <= s < n && #[trigger] slot(p, s) == Some(raw),
    decreases n - from,
{
    if from < n {
        let rest = page_scan(p, from + 1, n);
        lemma_page_scan(p, from + 1, n, raw);
        let all = page_scan(p, from, n).recs;
        if rest.recs.contains(raw) {
            let k = choose|k: int| 0 <= k < rest.recs.len() && rest.recs[k] == raw;
            if slot(p, from) is Some {
                assert(all[k + 1] == raw);
            }
        }
        if slot(p, from) == Some(raw) {
            assert(all[0] == raw);
        }
        if all.contains(raw) && slot(p, from) != Some(raw) {
            let k = choose|k: int| 0 <= k < all.len() && all[k] == raw;
            if slot(p, from) is Some {
                assert(rest.recs[k - 1] == raw);
            }
        }
    }
}

proof fn lemma_scan(img: Image, dps: Seq<u32>, raw: Seq<u8>)
    requires
        !img.scan(dps).fault,
    ensures
        img.scan(dps).recs.contains(raw) <==> exists|k: int|
            0 <= k < dps.len() && stands_on(img, #[trigger] dps[k] as int, raw),
    decreases dps.len(),
{
    if dps.len() > 0 {
        let rest = dps.skip(1);
        let p = img.page(dps[0] as int);
        let n: int = if p[0] == 5 {
            slot_count(p)
        } else {
            0
        };
        let first = page_scan(p, 0, n);
        lemma_page_scan(p, 0, n, raw);
        lemma_scan(img, rest, raw);
        let all = img.scan(dps).recs;
        let more = img.scan(rest).recs;
        assert(all == first.recs + more);
        if all.contains(raw) {
            let i = choose|i: int| 0 <= i < all.len() && all[i] == raw;
            if i < first.recs.len() {
                assert(first.recs[i] == raw);
                assert(stands_on(img, dps[0] as int, raw));
            } else {
                assert(more[i - first.recs.len()] == raw);
                let k = choose|k: int|
                    0 <= k < rest.len() && stands_on(img, #[trigger] rest[k] as int, raw);
                assert(dps[k + 1] == rest[k]);
            }
        }
        if exists|k: int| 0 <= k < dps.len() && stands_on(img, #[trigger] dps[k] as int, raw) {
            let k = choose|k: int|
                0 <= k < dps.len() && stands_on(img, #[trigger] dps[k] as int, raw);
            if k == 0 {
                let i = choose|i: int| 0 <= i < first.recs.len() && first.recs[i] == raw;
                assert(all[i] == raw);
            } else {
                assert(rest[k - 1] == dps[k]);
                let i = choose|i: int| 0 <= i < more.len() && more[i] == raw;
                assert(all[first.recs.len() + i] == raw);
            }
        }
    }
}

/// The records of a relation are those on its data pages, all of them, and no others.
pub proof fn law_relation_has_all_records(img: Image, pp: int, raw: Seq<u8>)
    requires
        img.data_pages(pp) is Some,
        !img.relation(pp).fault,
    ensures
        img.relation(pp).recs.contains(raw) <==> exists|k: int|
            0 <= k < img.data_pages(pp)->0.len() && stands_on(
                img,
                #[trigger] img.data_pages(pp)->0[k] as int,
                raw,
            ),
{
    lemma_scan(img, img.data_pages(pp)->0, raw);
}

/// Whether a row of `RDB$PAGES` names a page as the first pointer page of a relation.
pub open spec fn names_pointer_page(rec: Seq<u8>, relation: int, page: int) -> bool {
    &&& rec.len() >= 18
    &&& little_endian(rec.subrange(8, 10)) == relation
    &&& little_endian(rec.subrange(16, 18)) == 4
    &&& little_endian(rec.subrange(12, 16)) == 0
    &&& little_endian(rec.subrange(4, 8)) == page
}

proof fn lemma_pointer_page(rec: Seq<u8>)
    requires
        rec.len() >= 18,
    ensures
        little_endian(rec.subrange(8, 10)) == le16(rec, 8),
        little_endian(rec.subrange(16, 18)) == le16(rec, 16),
        little_endian(rec.subrange(12, 16)) == le32(rec, 12),
        little_endian(rec.subrange(4, 8)) == le32(rec, 4),
{
    lemma_little2(rec, 8);
    lemma_little2(rec, 16);
    lemma_little4(rec, 12);
    lemma_little4(rec, 4);
}

/// A relation begins at the page that a row of `RDB$PAGES` names: a pointer page, the first of
/// the relation. `RDB$PAGES` itself begins at the page that the header names.
pub proof fn law_relation_begins_where_pages_say(img: Image, relation: int)
    requires
        img.first_pp(relation) is Some,
    ensures
        img.has_page(0),
        ({
            let recs = img.relation(img.hdr_pages() as int).recs;
            match img.first_pp(relation)->0 {
                Some(pp) => exists|k: int|
                    0 <= k < recs.len() && unpack(#[trigger] recs[k], false) is Some
                        && names_pointer_page(
                        unpack(recs[k], false)->0,
                        relation,
                        pp as int,
                    ),
                None => forall|k: int, page: int|
                    0 <= k < recs.len() && unpack(#[trigger] recs[k], false) is Some
                        ==> !#[trigger] names_pointer_page(
                        unpack(recs[k], false)->0,
                        relation,
                        page,
                    ),
            }
        }),
{
    let sc = img.relation(img.hdr_pages() as int);
    let f = pointer_page_in(relation);
    let k = lemma_found(sc, f);
    match img.first_pp(relation)->0 {
        Some(pp) => {
            let rec = unpack(sc.recs[k], false)->0;
            lemma_pointer_page(rec);
            assert(names_pointer_page(rec, relation, pp as int));
        },
        None => {
            assert forall|i: int, page: int|
                0 <= i < sc.recs.len() && unpack(
                    #[trigger] sc.recs[i],
                    false,
                ) is Some implies !#[trigger] names_pointer_page(
                unpack(sc.recs[i], false)->0,
                relation,
                page,
            ) by {
                let rec = unpack(sc.recs[i], false)->0;
                assert(f(sc.recs[i]) == Some(None::<u32>));
                if rec.len() >= 18 {
                    lemma_pointer_page(rec);
                }
            }
        },
    }
}

/// The header of the file names the first page of `RDB$PAGES` in four bytes, at 28 from
/// version 14 on and at 20 before.
pub proof fn law_header_names_the_pages(img: Image)
    requires
        img.wf(),
        img.has_page(0),
    ensures
        img.hdr_pages() == little_endian(
            if img.ods_ver >= 14 {
                img.data.subrange(28, 32)
            } else {
                img.data.subrange(20, 24)
            },
        ),
{
    let p = img.page(0);
    assert(0 * img.page_size == 0);
    assert(p =~= img.data.take(img.page_size));
    lemma_little4(p, 28);
    lemma_little4(p, 20);
    assert(p.subrange(28, 32) =~= img.data.subrange(28, 32));
    assert(p.subrange(20, 24) =~= img.data.subrange(20, 24));
}

/// A record in pieces is put together: each piece that is not the last names the page and the
/// line of the next, and its data stands behind 22 bytes.
pub proof fn law_pieces_are_joined(img: Image, cur: Seq<u8>, out: Seq<u8>, n: nat)
    requires
        cur.len() >= 22,
        n > 0,
    ensures
        !has_flag(cur, 8) ==> img.fragments(cur, out, n) == Some(
            match payload(cur) {
                Some(data) => Some(out + data),
                None => None::<Seq<u8>>,
            },
        ),
        has_flag(cur, 8) && has_flag(cur, 2048) && cur.len() > 22 ==> match img.slot_raw(
            little_endian(cur.subrange(16, 20)),
            little_endian(cur.subrange(20, 22)),
        ) {
            Some(Some(next)) => img.fragments(cur, out, n) == img.fragments(
                next,
                out + cur.skip(22),
                (n - 1) as nat,
            ),
            Some(None) => img.fragments(cur, out, n) == Some(None::<Seq<u8>>),
            None => img.fragments(cur, out, n) is None,
        },
{
    lemma_flags(cur);
    lemma_little4(cur, 16);
    lemma_little2(cur, 20);
}

/// A row of a system relation is a live record: it is neither deleted nor a piece of another
/// nor a blob. One in pieces is put together.
pub proof fn law_system_rows_are_live(img: Image, raw: Seq<u8>)
    requires
        raw.len() >= 13,
    ensures
        has_flag(raw, 1) || has_flag(raw, 4) || has_flag(raw, 16) ==> img.unpack_meta(raw) == Some(
            None::<Seq<u8>>,
        ),
        !has_flag(raw, 1) && !has_flag(raw, 4) && !has_flag(raw, 16) && !has_flag(raw, 8)
            ==> img.unpack_meta(raw) == Some(payload(raw)),
        !has_flag(raw, 1) && !has_flag(raw, 4) && !has_flag(raw, 16) && has_flag(raw, 8)
            ==> img.unpack_meta(raw) == img.fragments(raw, Seq::empty(), 4096),
{
    lemma_flags(raw);
}

// ── Formats and blobs ────────────────────────────────────────────────────────

/// The formats of a relation are the rows of `RDB$FORMATS` with its number: each is a version
/// and the number of a blob.
pub proof fn law_formats_are_listed(img: Image, relation: int, ver: u16, bid: BlobId)
    requires
        img.formats(relation) is Some,
    ensures
        img.formats(relation)->0.contains((ver, bid)) <==> exists|rec: Seq<u8>| #[trigger]
            row_of(img, 8, rec) && is_format_row(rec, relation, ver, bid),
{
    let all = img.formats(relation)->0;
    let f = format_in(img, relation);
    if all.contains((ver, bid)) {
        let sc = img.relation(img.first_pp(8)->0->0 as int);
        let i = choose|i: int| 0 <= i < all.len() && all[i] == (ver, bid);
        let k = lemma_collected_from(sc, f, i);
        let rec = img.unpack_meta(sc.recs[k])->0->0;
        assert(sc.recs.contains(sc.recs[k]));
        lemma_little2(rec, 4);
        lemma_little2(rec, 6);
        assert(row_of(img, 8, rec) && is_format_row(rec, relation, ver, bid));
    }
    if exists|rec: Seq<u8>| #[trigger]
        row_of(img, 8, rec) && is_format_row(rec, relation, ver, bid) {
        let rec = choose|rec: Seq<u8>| #[trigger]
            row_of(img, 8, rec) && is_format_row(rec, relation, ver, bid);
        let sc = img.relation(img.first_pp(8)->0->0 as int);
        let raw = choose|raw: Seq<u8>|
            #[trigger] sc.recs.contains(raw) && img.unpack_meta(raw) == Some(Some(rec));
        let k = choose|k: int| 0 <= k < sc.recs.len() && sc.recs[k] == raw;
        lemma_little2(rec, 4);
        lemma_little2(rec, 6);
        lemma_collected(sc, f, k, (ver, bid));
    }
}

/// Whether a row of `RDB$FORMATS` is this version of the relation's format.
pub open spec fn is_format_row(rec: Seq<u8>, relation: int, ver: u16, bid: BlobId) -> bool {
    &&& rec.len() >= 16
    &&& little_endian(rec.subrange(4, 6)) == relation
    &&& little_endian(rec.subrange(6, 8)) == ver
    &&& bid.relation == rec[8] + 0x100 * rec[9]
    &&& bid.number == rec[12] + 0x100 * rec[13] + 0x1_0000 * rec[14] + 0x100_0000 * rec[15]
        + 0x1_0000_0000 * rec[11]
}

/// A blob is found by its number: the sequence of its data page times the records that fit a
/// page, and its place on that page.
pub proof fn law_blob_is_found_by_its_number(img: Image, dps: Seq<u32>, bid: BlobId)
    requires
        img.wf(),
        img.blob_on(dps, bid) is Some,
    ensures
        img.blob_on(dps, bid)->0 is Ok ==> exists|k: int|
            0 <= k < dps.len() && has_blob(img, #[trigger] dps[k] as int, bid) && img.blob_in(
                slot(
                    img.page(dps[k] as int),
                    bid.number as int % ((img.page_size - 28) / 17),
                )->0,
            ) == img.blob_on(dps, bid),
    decreases dps.len(),
{
    if dps.len() > 0 {
        let rest = dps.skip(1);
        let p = img.page(dps[0] as int);
        let m = (img.page_size - 28) / 17;
        let s = bid.number as int % m;
        assert(dps[0] as int * img.page_size >= 0) by (nonlinear_arith)
            requires
                0 <= dps[0] as int,
                1024 <= img.page_size,
        ;
        assert(p.len() == img.page_size);
        lemma_little4(p, 16);
        assert(bid.number as int == (bid.number as int / m) * m + s && 0 <= s < m)
            by (nonlinear_arith)
            requires
                m > 0,
                s == bid.number as int % m,
        ;
        if p[0] == 5 && le32(p, 16) == bid.number as int / m && s < slot_count(p) && slot_listed(
            p,
            s,
        ) && slot(p, s) is Some && slot(p, s)->0.len() >= 32 {
            lemma_flags(slot(p, s)->0);
        }
        if img.blob_on(dps, bid)->0 is Ok {
            if has_blob(img, dps[0] as int, bid) {
                let q = le32(p, 16);
                let d = bid.number as int / m;
                assert(q == d) by (nonlinear_arith)
                    requires
                        m > 0,
                        q * m == d * m,
                ;
            } else {
                law_blob_is_found_by_its_number(img, rest, bid);
                let k = choose|k: int|
                    0 <= k < rest.len() && has_blob(img, #[trigger] rest[k] as int, bid)
                        && img.blob_in(
                        slot(
                            img.page(rest[k] as int),
                            bid.number as int % ((img.page_size - 28) / 17),
                        )->0,
                    ) == img.blob_on(rest, bid);
                assert(dps[k + 1] == rest[k]);
            }
        }
    }
}

/// Whether a data page is the one with the header of a blob.
pub open spec fn has_blob(img: Image, n: int, bid: BlobId) -> bool {
    let p = img.page(n);
    let m = (img.page_size - 28) / 17;
    let s = bid.number as int % m;
    &&& p[0] == 5
    &&& little_endian(p.subrange(16, 20)) * m + s == bid.number
    &&& s < p[22] + 0x100 * p[23]
    &&& slot(p, s) is Some
    &&& slot(p, s)->0.len() >= 32
    &&& has_flag(slot(p, s)->0, 16)
}

/// The header of a blob: the page it begins on, the number of its last page, its level, its
/// length and the count of its segments stand where the version has them.
pub proof fn law_blob_header_is_read(raw: Seq<u8>, ods_ver: int)
    requires
        raw.len() >= 28,
    ensures
        ({
            let h = blob_header(raw, ods_ver);
            &&& h.lead_page == little_endian(raw.subrange(0, 4))
            &&& h.max_sequence == little_endian(raw.subrange(4, 8))
            &&& ods_ver >= 14 ==> h.level == raw[27] && h.length == little_endian(
                raw.subrange(16, 24),
            ) && h.count == little_endian(raw.subrange(12, 16))
            &&& ods_ver < 14 ==> h.level == raw[12] && h.length == little_endian(
                raw.subrange(20, 24),
            ) && h.count == little_endian(raw.subrange(16, 20))
        }),
{
    lemma_little4(raw, 0);
    lemma_little4(raw, 4);
    lemma_little4(raw, 12);
    lemma_little4(raw, 16);
    lemma_little4(raw, 20);
    lemma_little8(raw, 16);
}

/// A blob that lies beside its header is read from there: a stream as it is, segments put
/// together. One on pages has at most the length that the header says, from the pages that
/// are listed behind the header, or on the page that the header names.
pub proof fn law_blob_has_its_content(img: Image, raw: Seq<u8>)
    requires
        img.wf(),
        raw.len() >= 32,
        img.blob_in(raw) is Some,
    ensures
        ({
            let h = blob_header(raw, img.ods_ver);
            let r = img.blob_in(raw)->0;
            &&& h.length == 0 ==> r == Ok::<Seq<u8>, OdsError>(Seq::empty())
            &&& h.length > 0 && h.max_sequence == 0 && has_flag(raw, 32) && raw.len() >= 28
                + h.length ==> r == Ok::<Seq<u8>, OdsError>(raw.subrange(28, 28 + h.length))
            &&& h.length > 0 && h.max_sequence == 0 && has_flag(raw, 32) && raw.len() < 28
                + h.length ==> r is Err
            &&& h.length > 0 && h.max_sequence == 0 && !has_flag(raw, 32) ==> r == Ok::<
                Seq<u8>,
                OdsError,
            >(crate::blob::segments(raw, 28, h.count))
            &&& h.max_sequence > 0 && r is Ok ==> r->Ok_0.len() <= h.length
            &&& h.length > 0 && h.max_sequence > 0 && h.level == 0 ==> ({
                let n = if h.max_sequence < 1000 {
                    h.max_sequence
                } else {
                    1000
                };
                let all = img.listed_pages(raw, 28, 0, n);
                all is Some && r is Ok && r->Ok_0.len() <= all->0.len() && r->Ok_0
                    == all->0.take(r->Ok_0.len() as int) && (r->Ok_0.len() == h.length
                    || r->Ok_0.len() == all->0.len())
            })
            &&& h.length > 0 && h.max_sequence > 0 && h.level == 1 ==> ({
                let p = img.page(little_endian(raw.subrange(28, 32)));
                let k = (h.length + img.page_size - 1) / img.page_size;
                let all = img.listed_pages(
                    p,
                    4,
                    0,
                    if k < 1000 {
                        k
                    } else {
                        1000
                    },
                );
                all is Some && r is Ok && r->Ok_0.len() <= all->0.len() && r->Ok_0
                    == all->0.take(r->Ok_0.len() as int) && (r->Ok_0.len() == h.length
                    || r->Ok_0.len() == all->0.len())
            })
        }),
{
    lemma_flags(raw);
    lemma_little4(raw, 28);
    let h = blob_header(raw, img.ods_ver);
    let k = (h.length + img.page_size - 1) / img.page_size;
    if h.length > 0 {
        assert(k >= 1) by (nonlinear_arith)
            requires
                h.length > 0,
                img.page_size >= 1024,
                k == (h.length + img.page_size - 1) / img.page_size,
        ;
        if h.max_sequence > 0 && h.level <= 1 && img.blob_in(raw)->0 is Ok {
            let r = img.blob_in(raw)->0->Ok_0;
            assert(r =~= r.take(r.len() as int));
        }
    }
}

/// The pages of a blob are taken in the order of their numbers, up to a number of 0; of each
/// the part that its length says, behind 28 bytes.
pub proof fn law_blob_pages_are_joined(img: Image, s: Seq<u8>, base: int, i: int, n: int)
    requires
        img.wf(),
        0 <= base,
        0 <= i < n,
        base + 4 * i + 4 <= s.len(),
    ensures
        ({
            let page = little_endian(s.subrange(base + 4 * i, base + 4 * i + 4));
            let p = img.page(page);
            let len = little_endian(p.subrange(24, 26));
            let room = img.page_size - 28;
            &&& page == 0 ==> img.listed_pages(s, base, i, n) == Some(Seq::<u8>::empty())
            &&& page != 0 && !img.has_page(page) ==> img.listed_pages(s, base, i, n) is None
            &&& page != 0 && img.has_page(page) && img.listed_pages(s, base, i + 1, n) is Some
                ==> img.listed_pages(s, base, i, n) == Some(
                p.subrange(
                    28,
                    28 + if len <= room {
                        len
                    } else {
                        room
                    },
                ) + img.listed_pages(s, base, i + 1, n)->0,
            )
        }),
{
    lemma_little4(s, base + 4 * i);
    let page = le32(s, base + 4 * i);
    if img.has_page(page) {
        assert(page * img.page_size >= 0) by (nonlinear_arith)
            requires
                0 <= page,
                1024 <= img.page_size,
        ;
        assert(img.page(page).len() == img.page_size);
        lemma_little2(img.page(page), 24);
    }
}

// ── Whole loads ──────────────────────────────────────────────────────────────

/// A row of a whole load is a live row of the table, the latest version of it, with a field
/// for each column: the value that the record holds by its own format.
pub proof fn law_loaded_row_is_read(
    img: Image,
    relation: u16,
    fids: Seq<usize>,
    n_fields: i16,
    raw: Seq<u8>,
    row: Seq<u8>,
)
    requires
        img.copy_row(relation, fids, n_fields, raw) == Some(Some(row)),
        n_fields == fids.len(),
        img.format_or_latest(relation, raw[12])->0 is Some,
        img.live_data(raw)->0->0.len() <= 0x2000_0000,
    ensures
        !has_flag(raw, 1) && !has_flag(raw, 2) && !has_flag(raw, 4) && !has_flag(raw, 16),
        img.live_data(raw) is Some && img.live_data(raw)->0 is Some,
        read_row(row) == Some(
            Seq::new(
                fids.len(),
                |i: int|
                    slot_value(
                        img.live_data(raw)->0->0,
                        copy_slot(fids[i], img.format_or_latest(relation, raw[12])->0->0),
                    ),
            ),
        ),
{
    lemma_flags(raw);
    let rec = img.live_data(raw)->0->0;
    let d = img.format_or_latest(relation, raw[12])->0->0;
    let slots = copy_slots_of(fids, d);
    assert forall|k: int| 0 <= k < slots.len() implies fits_field(
        slot_value(rec, #[trigger] slots[k]),
    ) by {
        lemma_value_fits(rec, slots[k]);
    }
    law_row_is_read(rec, slots, n_fields);
    assert(column_values(rec, slots) =~= Seq::new(
        fids.len(),
        |i: int| slot_value(rec, copy_slot(fids[i], d)),
    ));
}

/// The data of a row for a load is that of a whole record, or of its pieces put together.
pub proof fn law_live_data(img: Image, raw: Seq<u8>)
    requires
        raw.len() >= 13,
    ensures
        has_flag(raw, 1) || has_flag(raw, 2) || has_flag(raw, 4) || has_flag(raw, 16)
            ==> img.live_data(raw) == Some(None::<Seq<u8>>),
        !has_flag(raw, 1) && !has_flag(raw, 2) && !has_flag(raw, 4) && !has_flag(raw, 16)
            ==> img.live_data(raw) == if has_flag(raw, 8) {
            img.fragments(raw, Seq::empty(), 4096)
        } else {
            Some(payload(raw))
        },
{
    lemma_flags(raw);
}

/// A record is read by its own format, and by the latest where that one is not there.
pub proof fn law_load_reads_by_the_format(img: Image, relation: u16, fmt: u8)
    requires
        img.format_or_latest(relation, fmt) is Some,
    ensures
        match (img.format(relation, fmt as u16), img.format(relation, 0xffff)) {
            (Some(Ok(d)), _) => img.format_or_latest(relation, fmt) == Some(Some(d)),
            (Some(Err(_)), Some(Ok(d))) => img.format_or_latest(relation, fmt) == Some(Some(d)),
            (Some(Err(_)), Some(Err(_))) => img.format_or_latest(relation, fmt)->0 is None,
            _ => false,
        },
{
}

/// A whole load is the live rows of the table, all of them and no others: read back, the
/// stream has one row for each, with a field for each column.
pub proof fn law_load_is_the_table(
    img: Image,
    relation: u16,
    fids: Seq<usize>,
    n_fields: i16,
    pp: u32,
)
    requires
        img.copy_rows(relation, fids, n_fields) is Some,
        n_fields == fids.len(),
        img.first_pp(relation as int) == Some(Some(pp)),
        forall|fmt: u8| (#[trigger] img.format_or_latest(relation, fmt))->0 is Some,
        forall|k: int|
            0 <= k < img.relation(pp as int).recs.len() ==> match img.live_data(
                #[trigger] img.relation(pp as int).recs[k],
            ) {
                Some(Some(rec)) => rec.len() <= 0x2000_0000,
                _ => true,
            },
    ensures
        ({
            let rows = img.copy_rows(relation, fids, n_fields)->0;
            let recs = img.relation(pp as int).recs;
            &&& match read_stream(copy_stream(rows)) {
                Some(values) => {
                    &&& values.len() == rows.len()
                    &&& forall|i: int|
                        0 <= i < values.len() ==> (#[trigger] values[i]).len() == fids.len()
                            && read_row(rows[i]) == Some(values[i])
                },
                None => false,
            }
            &&& forall|i: int|
                0 <= i < rows.len() ==> is_row_of_some(
                    img,
                    relation,
                    fids,
                    n_fields,
                    recs,
                    #[trigger] rows[i],
                )
            &&& forall|k: int|
                0 <= k < recs.len() ==> match img.copy_row(
                    relation,
                    fids,
                    n_fields,
                    #[trigger] recs[k],
                ) {
                    Some(Some(row)) => rows.contains(row),
                    Some(None) => true,
                    None => false,
                }
        }),
{
    let rows = img.copy_rows(relation, fids, n_fields)->0;
    let sc = img.relation(pp as int);
    let recs = sc.recs;
    let f = copy_row_in(img, relation, fids, n_fields);
    let values = Seq::new(rows.len(), |i: int| read_row(rows[i])->0);
    assert forall|i: int| 0 <= i < rows.len() implies read_row(#[trigger] rows[i]) == Some(values[i])
        && values[i].len() == fids.len() && is_row_of_some(
        img,
        relation,
        fids,
        n_fields,
        recs,
        rows[i],
    ) by {
        let k = lemma_collected_from(sc, f, i);
        let raw = recs[k];
        assert(img.copy_row(relation, fids, n_fields, raw) == Some(Some(rows[i])));
        assert(img.format_or_latest(relation, raw[12])->0 is Some);
        assert(img.relation(pp as int).recs[k] == raw);
        law_loaded_row_is_read(img, relation, fids, n_fields, raw, rows[i]);
        assert(recs.contains(raw));
    }
    law_stream_is_read(rows, values);
    assert forall|i: int| 0 <= i < values.len() implies (#[trigger] values[i]).len() == fids.len()
        && read_row(rows[i]) == Some(values[i]) by {
        assert(read_row(rows[i]) == Some(values[i]));
    }
    assert forall|k: int| 0 <= k < recs.len() implies match img.copy_row(
        relation,
        fids,
        n_fields,
        #[trigger] recs[k],
    ) {
        Some(Some(row)) => rows.contains(row),
        Some(None) => true,
        None => false,
    } by {
        lemma_collect_whole(sc, f, k);
        if let Some(Some(row)) = img.copy_row(relation, fids, n_fields, recs[k]) {
            lemma_collected(sc, f, k, row);
        }
    }
}

proof fn lemma_collect_whole<T>(sc: Scan, f: spec_fn(Seq<u8>) -> Option<Option<T>>, k: int)
    requires
        sc.collect(f) is Some,
        0 <= k < sc.recs.len(),
    ensures
        f(sc.recs[k]) is Some,
    decreases sc.recs.len(),
{
    if k > 0 {
        assert(sc.rest().recs[k - 1] == sc.recs[k]);
        lemma_collect_whole(sc.rest(), f, k - 1);
    }
}

/// Whether a row is that of one of the records.
pub open spec fn is_row_of_some(
    img: Image,
    relation: u16,
    fids: Seq<usize>,
    n_fields: i16,
    recs: Seq<Seq<u8>>,
    row: Seq<u8>,
) -> bool {
    exists|raw: Seq<u8>| #[trigger]
        recs.contains(raw) && img.copy_row(relation, fids, n_fields, raw) == Some(Some(row))
}

// ── Pages and slots ──────────────────────────────────────────────────────────

/// The pages of a file stand one behind the other, each as long as the page size, and a page is
/// there if the file holds all of it.
pub proof fn law_pages_stand_in_order(img: Image, n: int)
    requires
        img.wf(),
        0 <= n,
    ensures
        img.has_page(n) <==> (n + 1) * img.page_size <= img.data.len(),
        img.has_page(n) ==> img.page(n).len() == img.page_size && forall|i: int|
            0 <= i < img.page_size ==> img.page(n)[i] == img.data[n * img.page_size + i],
{
    assert((n + 1) * img.page_size == n * img.page_size + img.page_size) by (nonlinear_arith);
    assert(n * img.page_size >= 0) by (nonlinear_arith)
        requires
            0 <= n,
            1024 <= img.page_size,
    ;
}

/// A slot is looked up on data pages alone, and only where the page has so many.
pub proof fn law_slot_is_looked_up(img: Image, n: int, s: int)
    requires
        img.wf(),
        0 <= n,
        img.has_page(n),
        0 <= s,
    ensures
        img.page(n)[0] != 5 ==> img.slot_raw(n, s) == Some(None::<Seq<u8>>),
        s >= little_endian(img.page(n).subrange(22, 24)) ==> img.slot_raw(n, s) == Some(
            None::<Seq<u8>>,
        ),
        img.page(n)[0] == 5 && s < little_endian(img.page(n).subrange(22, 24)) && 24 + 4 * s + 4
            <= img.page_size ==> img.slot_raw(n, s) == Some(slot(img.page(n), s)),
{
    law_pages_stand_in_order(img, n);
    lemma_little2(img.page(n), 22);
}

/// A format is that of the chosen row of `RDB$FORMATS`, read from its blob; there is none for a
/// relation without rows, nor for a version that no row has.
pub proof fn law_format_comes_from_its_blob(img: Image, relation: u16, ver: u16)
    requires
        img.format(relation, ver) is Some,
    ensures
        ({
            let rows = img.formats(relation as int)->0;
            let chosen = chosen_format(rows, ver);
            &&& img.formats(relation as int) is Some
            &&& rows.len() == 0 ==> img.format(relation, ver) == Some(
                Err::<Seq<Desc>, OdsError>(OdsError::NoFormats(relation)),
            )
            &&& rows.len() > 0 && chosen is None ==> img.format(relation, ver) == Some(
                Err::<Seq<Desc>, OdsError>(OdsError::FormatNotFound(relation, ver)),
            )
            &&& rows.len() > 0 && chosen is Some ==> match img.blob(chosen->0) {
                Some(Ok(data)) => img.format(relation, ver) == Some(descriptors(data)),
                Some(Err(e)) => img.format(relation, ver) == Some(Err::<Seq<Desc>, OdsError>(e)),
                None => false,
            }
        }),
{
}

} // verus!
