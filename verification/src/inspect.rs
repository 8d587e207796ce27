//! What the data pages of a relation hold, slot by slot.
use crate::bytes::{get_u16, get_u32, le16, le32};
use crate::ods::{
    flagged, slot_count, Image, OdsError, OdsReader, PAG_DATA, RHD_CHAIN, RHD_DELETED, RHD_FRAGMENT,
    RHD_INCOMPLETE, RHD_LONG_TRANUM, RHD_NOT_PACKED,
};
use crate::text::{decimal, pad, padded, push_decimal};
use vstd::prelude::*;
use vstd::slice::slice_subrange;
use vstd::string::{StrSliceExecFns, StringExecFns};

verus! {

/// What a slot holds.
#[derive(Clone, Copy, PartialEq, Eq, Debug, Structural)]
pub enum SlotReport {
    Empty,
    /// It reaches behind the page.
    OutOfBounds { off: u16, len: u16 },
    /// It is too short for the header of a record.
    Short { len: u16 },
    Record { txn: u64, flags: u16, fmt: u8, b_page: u32, b_line: u16, len: u16 },
}

/// A data page.
pub struct PageReport {
    pub page: u32,
    pub gen: u32,
    pub slots: Vec<SlotReport>,
}

/// A relation: its first pointer page, if it has one, how many pages it lists, and those
/// of them that are data pages.
pub struct Inspection {
    pub relation_id: u16,
    pub first_pp: Option<u32>,
    pub n_pages: usize,
    pub pages: Vec<PageReport>,
}

// ── Reading ──────────────────────────────────────────────────────────────────

/// The transaction in the header of the record `raw`.
pub open spec fn header_txn(raw: Seq<u8>) -> int {
    if flagged(raw, RHD_LONG_TRANUM) && raw.len() >= 16 {
        0x1_0000_0000 * le16(raw, 14) + le32(raw, 0)
    } else {
        le32(raw, 0)
    }
}

/// What slot `s` of the page `p` holds.
pub open spec fn slot_report(p: Seq<u8>, s: int) -> SlotReport {
    let off = le16(p, 24 + 4 * s);
    let len = le16(p, 26 + 4 * s);
    let raw = p.subrange(off, off + len);
    if off == 0 || len == 0 {
        SlotReport::Empty
    } else if off + len > p.len() {
        SlotReport::OutOfBounds { off: off as u16, len: len as u16 }
    } else if len < 13 {
        SlotReport::Short { len: len as u16 }
    } else {
        SlotReport::Record {
            txn: header_txn(raw) as u64,
            flags: le16(raw, 10) as u16,
            fmt: raw[12],
            b_page: le32(raw, 4) as u32,
            b_line: le16(raw, 8) as u16,
            len: len as u16,
        }
    }
}

/// Whether the directory of the page `p` lies on it.
pub open spec fn directory_fits(p: Seq<u8>) -> bool {
    24 + 4 * slot_count(p) <= p.len()
}

/// Whether `r` is what the page `n` holds.
pub open spec fn page_shows(img: Image, n: u32, r: PageReport) -> bool {
    let p = img.page(n as int);
    &&& r.page == n
    &&& r.gen == le32(p, 4)
    &&& r.slots@ == Seq::new(slot_count(p) as nat, |s: int| slot_report(p, s))
}

/// Those of the pages `ps` that are data pages.
pub open spec fn data_pages_in(img: Image, ps: Seq<u32>) -> Seq<u32>
    decreases ps.len(),
{
    if ps.len() == 0 {
        Seq::empty()
    } else if img.page(ps.last() as int)[0] == PAG_DATA {
        data_pages_in(img, ps.drop_last()).push(ps.last())
    } else {
        data_pages_in(img, ps.drop_last())
    }
}

/// Whether the pages of a relation can be inspected.
pub open spec fn inspectable_pages(img: Image, ps: Seq<u32>) -> bool {
    forall|i: int|
        0 <= i < ps.len() ==> img.has_page(#[trigger] ps[i] as int) && (img.page(ps[i] as int)[0]
            == PAG_DATA ==> directory_fits(img.page(ps[i] as int)))
}

/// Whether a table can be inspected.
pub open spec fn inspectable(img: Image, table: Seq<char>) -> bool {
    match img.relation_id(table) {
        None => false,
        Some(Err(_)) => true,
        Some(Ok(rid)) => match img.first_pp(rid as int) {
            None => false,
            Some(None) => true,
            Some(Some(pp)) => img.data_pages(pp as int) is Some && inspectable_pages(
                img,
                img.data_pages(pp as int)->0,
            ),
        },
    }
}

/// Whether the reports `rs` are those of the data pages among `ps`.
pub open spec fn pages_are(img: Image, ps: Seq<u32>, rs: Seq<PageReport>) -> bool {
    let found = data_pages_in(img, ps);
    &&& rs.len() == found.len()
    &&& forall|i: int| 0 <= i < rs.len() ==> page_shows(img, found[i], #[trigger] rs[i])
}

/// Whether `r` is what a table holds.
pub open spec fn inspection_shows(img: Image, table: Seq<char>, r: Inspection) -> bool {
    &&& img.relation_id(table) == Some(Ok::<u16, OdsError>(r.relation_id))
    &&& img.first_pp(r.relation_id as int) == Some(r.first_pp)
    &&& match r.first_pp {
        None => r.n_pages == 0 && r.pages@.len() == 0,
        Some(pp) => {
            let ps = img.data_pages(pp as int)->0;
            r.n_pages == ps.len() && pages_are(img, ps, r.pages@)
        },
    }
}

fn read_slot_report(p: &[u8], s: u16) -> (r: SlotReport)
    requires
        28 + 4 * s <= p@.len() <= 65535,
    ensures
        r == slot_report(p@, s as int),
{
    let at: usize = 24 + 4 * s as usize;
    let off: u16 = get_u16(p, at);
    let len: u16 = get_u16(p, at + 2);
    if off == 0 || len == 0 {
        return SlotReport::Empty;
    }
    if off as usize + len as usize > p.len() {
        return SlotReport::OutOfBounds { off, len };
    }
    if len < 13 {
        return SlotReport::Short { len };
    }
    let raw: &[u8] = slice_subrange(p, off as usize, off as usize + len as usize);
    let flags: u16 = get_u16(raw, 10);
    let lo: u64 = get_u32(raw, 0) as u64;
    let txn: u64 = if flags & RHD_LONG_TRANUM != 0 && len >= 16 {
        0x1_0000_0000 * (get_u16(raw, 14) as u64) + lo
    } else {
        lo
    };
    SlotReport::Record {
        txn,
        flags,
        fmt: raw[12],
        b_page: get_u32(raw, 4),
        b_line: get_u16(raw, 8),
        len,
    }
}

fn read_page_report(db: &OdsReader, n: u32) -> (r: PageReport)
    requires
        db.wf(),
        db@.has_page(n as int),
        directory_fits(db@.page(n as int)),
    ensures
        page_shows(db@, n, r),
{
    let p: &[u8] = db.page(n);
    let count: u16 = get_u16(p, 22);
    let mut slots: Vec<SlotReport> = Vec::new();
    let ghost want = Seq::new(slot_count(p@) as nat, |s: int| slot_report(p@, s));
    let mut s: u16 = 0;
    while s < count
        invariant
            s <= count,
            count == slot_count(p@),
            directory_fits(p@),
            p@.len() <= 65535,
            want == Seq::new(slot_count(p@) as nat, |s: int| slot_report(p@, s)),
            slots@ =~= want.take(s as int),
        decreases count - s,
    {
        slots.push(read_slot_report(p, s));
        s = s + 1;
    }
    assert(want.take(s as int) =~= want);
    PageReport { page: n, gen: get_u32(p, 4), slots }
}

/// Reads what the data pages of a table hold.
pub fn inspect_relation(db: &OdsReader, table: &str) -> (r: Result<Inspection, OdsError>)
    requires
        db.wf(),
        inspectable(db@, table@),
    ensures
        match r {
            Ok(x) => inspection_shows(db@, table@, x),
            Err(e) => db@.relation_id(table@) == Some(Err::<u16, OdsError>(e)),
        },
{
    let relation_id: u16 = match db.find_relation_id(table) {
        Ok(rid) => rid,
        Err(e) => {
            return Err(e);
        },
    };
    let pp: u32 = match db.find_first_pp(relation_id) {
        Some(pp) => pp,
        None => {
            return Ok(
                Inspection { relation_id, first_pp: None, n_pages: 0, pages: Vec::new() },
            );
        },
    };
    let list: Vec<u32> = db.data_pages_for(pp);
    let mut pages: Vec<PageReport> = Vec::new();
    let mut i: usize = 0;
    while i < list.len()
        invariant
            i <= list@.len(),
            db.wf(),
            inspectable_pages(db@, list@),
            pages_are(db@, list@.take(i as int), pages@),
        decreases list@.len() - i,
    {
        let n: u32 = list[i];
        let ghost before = list@.take(i as int);
        let ghost now = list@.take(i + 1);
        let ghost old_pages = pages@;
        assert(now.drop_last() =~= before);
        assert(now.last() == n);
        if db.page(n)[0] == PAG_DATA {
            pages.push(read_page_report(db, n));
            assert forall|k: int| 0 <= k < pages@.len() implies page_shows(
                db@,
                data_pages_in(db@, now)[k],
                #[trigger] pages@[k],
            ) by {
                if k < old_pages.len() {
                    assert(old_pages[k] == pages@[k]);
                }
            }
        }
        i = i + 1;
    }
    assert(list@.take(i as int) =~= list@);
    Ok(Inspection { relation_id, first_pp: Some(pp), n_pages: list.len(), pages })
}

// ── Showing ──────────────────────────────────────────────────────────────────

/// `s` behind as many blanks as fill it up to at least `width` characters.
pub open spec fn padded_left(s: Seq<char>, width: int) -> Seq<char>
    decreases width - s.len(),
{
    if s.len() < width {
        padded_left(seq![' '] + s, width)
    } else {
        s
    }
}

/// The hexadecimal digit `d`.
pub open spec fn hex_digit(d: int) -> char {
    if d < 10 {
        (48 + d) as char
    } else {
        (87 + d) as char
    }
}

/// `n` as four hexadecimal digits.
pub open spec fn hex4(n: int) -> Seq<char> {
    seq![hex_digit(n / 0x1000), hex_digit(n / 0x100 % 16), hex_digit(n / 16 % 16), hex_digit(n % 16)]
}

/// The sign of a flag, or blanks.
pub open spec fn sign(flags: u16, mask: u16, text: Seq<char>) -> Seq<char> {
    if flags & mask != 0 {
        text
    } else {
        "    "@
    }
}

/// The line that introduces a table.
pub open spec fn relation_line(table: Seq<char>, r: Inspection) -> Seq<char> {
    match r.first_pp {
        None => "No pointer page for "@ + table + " (relation_id="@ + decimal(r.relation_id as nat)
            + ")"@,
        Some(pp) => "relation="@ + table + " rid="@ + decimal(r.relation_id as nat) + " first_pp="@
            + decimal(pp as nat) + " data_pages="@ + decimal(r.n_pages as nat),
    }
}

/// The line that introduces a page.
pub open spec fn page_line(p: PageReport) -> Seq<char> {
    "─── page "@ + decimal(p.page as nat) + " pag_gen="@ + decimal(p.gen as nat) + " slots="@
        + decimal(p.slots@.len()) + " ───"@
}

/// The line of slot `s`.
pub open spec fn slot_line(s: nat, r: SlotReport) -> Seq<char> {
    let head = "  slot "@ + padded_left(decimal(s), 4) + ": "@;
    match r {
        SlotReport::Empty => head + "empty"@,
        SlotReport::OutOfBounds { off, len } => head + "OOB off="@ + decimal(off as nat) + " len="@
            + decimal(len as nat),
        SlotReport::Short { len } => head + "short raw_len="@ + decimal(len as nat),
        SlotReport::Record { txn, flags, fmt, b_page, b_line, len } => head + "txn="@ + padded(
            decimal(txn as nat),
            10,
        ) + " flags=0x"@ + hex4(flags as int) + " "@ + sign(flags, RHD_DELETED, "DEL "@) + sign(
            flags,
            RHD_CHAIN,
            "CHN "@,
        ) + sign(flags, RHD_FRAGMENT, "FRG "@) + sign(flags, RHD_INCOMPLETE, "INC "@) + sign(
            flags,
            RHD_LONG_TRANUM,
            "LNG "@,
        ) + sign(flags, RHD_NOT_PACKED, "NPK "@) + " fmt="@ + padded(decimal(fmt as nat), 3)
            + " b_page="@ + padded(decimal(b_page as nat), 8) + " b_line="@ + padded(
            decimal(b_line as nat),
            4,
        ) + " raw_len="@ + decimal(len as nat),
    }
}

fn number(n: u64) -> (r: String)
    ensures
        r@ == decimal(n as nat),
{
    let mut s: String = String::new();
    push_decimal(&mut s, n);
    assert(s@ =~= decimal(n as nat));
    s
}

fn pad_left(s: &str, width: usize) -> (r: String)
    ensures
        r@ == padded_left(s@, width as int),
{
    let mut out: String = s.to_owned();
    let mut n: usize = s.unicode_len();
    while n < width
        invariant
            out@.len() == n,
            padded_left(s@, width as int) == padded_left(out@, width as int),
        decreases width - n,
    {
        let mut longer: String = String::new();
        longer.push(' ');
        longer.append(out.as_str());
        assert(longer@ =~= seq![' '] + out@);
        out = longer;
        n = n + 1;
    }
    out
}

fn hex_char(d: u16) -> (r: char)
    requires
        d < 16,
    ensures
        r == hex_digit(d as int),
{
    if d < 10 {
        (48 + d as u8) as char
    } else {
        (87 + d as u8) as char
    }
}

fn push_hex4(out: &mut String, n: u16)
    ensures
        final(out)@ == old(out)@ + hex4(n as int),
{
    out.push(hex_char(n / 0x1000));
    out.push(hex_char(n / 0x100 % 16));
    out.push(hex_char(n / 16 % 16));
    out.push(hex_char(n % 16));
    assert(out@ =~= old(out)@ + hex4(n as int));
}

fn push_sign(out: &mut String, flags: u16, mask: u16, text: &str)
    ensures
        final(out)@ == old(out)@ + sign(flags, mask, text@),
{
    if flags & mask != 0 {
        out.append(text);
    } else {
        out.append("    ");
    }
}

/// The line that introduces a table.
pub fn show_relation(table: &str, r: &Inspection) -> (line: String)
    ensures
        line@ == relation_line(table@, *r),
{
    match r.first_pp {
        None => {
            let mut s: String = String::from_str("No pointer page for ");
            s.append(table);
            s.append(" (relation_id=");
            push_decimal(&mut s, r.relation_id as u64);
            s.append(")");
            s
        },
        Some(pp) => {
            let mut s: String = String::from_str("relation=");
            s.append(table);
            s.append(" rid=");
            push_decimal(&mut s, r.relation_id as u64);
            s.append(" first_pp=");
            push_decimal(&mut s, pp as u64);
            s.append(" data_pages=");
            push_decimal(&mut s, r.n_pages as u64);
            s
        },
    }
}

/// The line that introduces a page.
pub fn show_page(p: &PageReport) -> (line: String)
    ensures
        line@ == page_line(*p),
{
    let mut s: String = String::from_str("─── page ");
    push_decimal(&mut s, p.page as u64);
    s.append(" pag_gen=");
    push_decimal(&mut s, p.gen as u64);
    s.append(" slots=");
    push_decimal(&mut s, p.slots.len() as u64);
    s.append(" ───");
    s
}

/// The line of slot `s`.
pub fn show_slot(s: usize, r: &SlotReport) -> (line: String)
    ensures
        line@ == slot_line(s as nat, *r),
{
    let mut out: String = String::from_str("  slot ");
    out.append(pad_left(number(s as u64).as_str(), 4).as_str());
    out.append(": ");
    match *r {
        SlotReport::Empty => {
            out.append("empty");
        },
        SlotReport::OutOfBounds { off, len } => {
            out.append("OOB off=");
            push_decimal(&mut out, off as u64);
            out.append(" len=");
            push_decimal(&mut out, len as u64);
        },
        SlotReport::Short { len } => {
            out.append("short raw_len=");
            push_decimal(&mut out, len as u64);
        },
        SlotReport::Record { txn, flags, fmt, b_page, b_line, len } => {
            out.append("txn=");
            out.append(pad(number(txn), 10).as_str());
            out.append(" flags=0x");
            push_hex4(&mut out, flags);
            out.append(" ");
            push_sign(&mut out, flags, RHD_DELETED, "DEL ");
            push_sign(&mut out, flags, RHD_CHAIN, "CHN ");
            push_sign(&mut out, flags, RHD_FRAGMENT, "FRG ");
            push_sign(&mut out, flags, RHD_INCOMPLETE, "INC ");
            push_sign(&mut out, flags, RHD_LONG_TRANUM, "LNG ");
            push_sign(&mut out, flags, RHD_NOT_PACKED, "NPK ");
            out.append(" fmt=");
            out.append(pad(number(fmt as u64), 3).as_str());
            out.append(" b_page=");
            out.append(pad(number(b_page as u64), 8).as_str());
            out.append(" b_line=");
            out.append(pad(number(b_line as u64), 4).as_str());
            out.append(" raw_len=");
            push_decimal(&mut out, len as u64);
        },
    }
    out
}

} // verus!
