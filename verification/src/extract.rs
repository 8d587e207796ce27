//! Rows in the format of PostgreSQL's `COPY ... BINARY`.
use crate::bytes::{
    append, be16, be32, be64, get_u16, get_u32, get_u64, le16, le32, le64, push_be16, push_be32,
    push_be32_u, push_be64, push_be64_u, signed, to_i16, to_i32, to_i64,
};
use crate::catalog::{column_views, count16};
use crate::ieee::{scaled_bits, scaled_to_bits};
use crate::ods::{
    flagged, unpack, unpack_record_into, Desc, Image, OdsError, OdsReader, Scan, SlotCursor,
    DTYPE_BOOLEAN, DTYPE_CSTRING, DTYPE_DBKEY, DTYPE_DOUBLE, DTYPE_D_FLOAT, DTYPE_INT64, DTYPE_LONG,
    DTYPE_QUAD, DTYPE_REAL, DTYPE_SHORT, DTYPE_SQL_DATE, DTYPE_SQL_TIME, DTYPE_SQL_TIME_TZ,
    DTYPE_TEXT, DTYPE_TIMESTAMP, DTYPE_TIMESTAMP_TZ, DTYPE_VARYING, MAX_FRAGMENTS, RHD_BLOB,
    RHD_CHAIN, RHD_DELETED, RHD_FRAGMENT, RHD_INCOMPLETE,
};
use crate::text::{decimal, push_decimal};
use crate::win1252::{lemma_win1252_len, win1252_to_utf8, win1252_utf8};
use vstd::prelude::*;
use vstd::slice::slice_subrange;

verus! {

// ── Fields ───────────────────────────────────────────────────────────────────

/// The day 2000-01-01, PostgreSQL's epoch, as Firebird counts days.
pub const PG_EPOCH_MJD: i32 = 51544;

/// `s` without the blanks and control characters at its end.
pub open spec fn without_blanks(s: Seq<u8>) -> Seq<u8>
    decreases s.len(),
{
    if s.len() > 0 && s.last() <= 0x20 {
        without_blanks(s.drop_last())
    } else {
        s
    }
}

/// The end of a field of `length` bytes at `start`, cut off where the record ends.
pub open spec fn field_end(rec: Seq<u8>, start: int, length: int) -> int {
    if start + length <= rec.len() {
        start + length
    } else {
        rec.len() as int
    }
}

pub open spec fn is_text(dtype: u8) -> bool {
    dtype == DTYPE_TEXT || dtype == DTYPE_CSTRING || dtype == DTYPE_VARYING
}

/// An integer of the width of its type, or the double that it stands for where it has a
/// scale.
pub open spec fn number_value(v: int, plain: Seq<u8>, scale: i8) -> Seq<u8> {
    if scale == 0 {
        plain
    } else {
        be64(scaled_bits(v, (-scale) as nat))
    }
}

/// The value of a field as PostgreSQL reads it; `None` for NULL, which is also what a
/// record gives that is too short to hold the field.
pub open spec fn field_value(rec: Seq<u8>, desc: Desc) -> Option<Seq<u8>> {
    let s = desc.offset as int;
    let n = rec.len();
    let t = desc.dtype;
    if t == DTYPE_TEXT || t == DTYPE_CSTRING {
        let end = field_end(rec, s, desc.length as int);
        if end <= s {
            None
        } else {
            Some(win1252_utf8(without_blanks(rec.subrange(s, end))))
        }
    } else if t == DTYPE_VARYING {
        if s + 2 > n {
            None
        } else {
            let data = rec.subrange(s + 2, field_end(rec, s + 2, le16(rec, s)));
            let kept = without_blanks(data);
            Some(
                win1252_utf8(
                    if kept.len() == 0 {
                        data
                    } else {
                        kept
                    },
                ),
            )
        }
    } else if t == DTYPE_SHORT {
        if s + 2 > n {
            None
        } else {
            let v = signed(le16(rec, s), 16);
            Some(number_value(v, be16(v), desc.scale))
        }
    } else if t == DTYPE_LONG {
        if s + 4 > n {
            None
        } else {
            let v = signed(le32(rec, s), 32);
            Some(number_value(v, be32(v), desc.scale))
        }
    } else if t == DTYPE_INT64 || t == DTYPE_QUAD {
        if s + 8 > n {
            None
        } else {
            let v = signed(le64(rec, s), 64);
            Some(number_value(v, be64(v), desc.scale))
        }
    } else if t == DTYPE_REAL {
        if s + 4 > n {
            None
        } else {
            Some(be32(le32(rec, s)))
        }
    } else if t == DTYPE_DOUBLE || t == DTYPE_D_FLOAT {
        if s + 8 > n {
            None
        } else {
            Some(be64(le64(rec, s)))
        }
    } else if t == DTYPE_SQL_DATE {
        if s + 4 > n {
            None
        } else {
            Some(be32(signed(le32(rec, s), 32) - PG_EPOCH_MJD))
        }
    } else if t == DTYPE_SQL_TIME || t == DTYPE_SQL_TIME_TZ {
        if s + 4 > n {
            None
        } else {
            Some(be64(100 * le32(rec, s)))
        }
    } else if t == DTYPE_TIMESTAMP || t == DTYPE_TIMESTAMP_TZ {
        if s + 8 > n {
            None
        } else {
            Some(
                be64(
                    86_400_000_000 * (signed(le32(rec, s), 32) - PG_EPOCH_MJD) + 100 * le32(
                        rec,
                        s + 4,
                    ),
                ),
            )
        }
    } else if t == DTYPE_BOOLEAN {
        if s >= n {
            None
        } else {
            Some(
                seq![
                    if rec[s] != 0 {
                        1u8
                    } else {
                        0u8
                    },
                ],
            )
        }
    } else if t == DTYPE_DBKEY {
        Some(rec.subrange(s, field_end(rec, s, desc.length as int)))
    } else {
        None
    }
}

/// Whether the field can be encoded: a scale is a power of ten from 10^0 to 10^-18, and a
/// record key starts inside the record.
pub open spec fn field_ok(rec: Seq<u8>, desc: Desc) -> bool {
    let s = desc.offset as int;
    let n = rec.len();
    let t = desc.dtype;
    &&& (t == DTYPE_SHORT && s + 2 <= n || t == DTYPE_LONG && s + 4 <= n || (t == DTYPE_INT64 || t
        == DTYPE_QUAD) && s + 8 <= n) ==> -18 <= desc.scale <= 0
    &&& t == DTYPE_DBKEY ==> s <= n
}

/// A value behind its length, -1 for NULL.
pub open spec fn framed(value: Option<Seq<u8>>) -> Seq<u8> {
    match value {
        Some(v) => be32(v.len() as int) + v,
        None => be32(-1),
    }
}

/// A field in the format of `COPY ... BINARY`.
pub open spec fn field_bytes(rec: Seq<u8>, desc: Desc) -> Seq<u8> {
    framed(field_value(rec, desc))
}

/// How many bytes are left without the blanks at the end.
fn blankless_len(s: &[u8]) -> (r: usize)
    ensures
        r <= s@.len(),
        s@.take(r as int) == without_blanks(s@),
        without_blanks(s@).len() == r,
{
    let mut n: usize = s.len();
    assert(s@.take(n as int) =~= s@);
    while n > 0 && s[n - 1] <= 0x20
        invariant
            n <= s@.len(),
            without_blanks(s@) == without_blanks(s@.take(n as int)),
        decreases n,
    {
        assert(s@.take(n as int).drop_last() =~= s@.take(n - 1));
        n = n - 1;
    }
    assert(n > 0 ==> s@.take(n as int).last() == s@[n - 1]);
    n
}

fn push_null(out: &mut Vec<u8>)
    ensures
        final(out)@ == old(out)@ + framed(None),
{
    push_be32(out, -1);
}

/// Writes text behind its length.
fn push_text(data: &[u8], out: &mut Vec<u8>, text_buf: &mut Vec<u8>)
    requires
        data@.len() <= 0xffff,
    ensures
        final(out)@ == old(out)@ + framed(Some(win1252_utf8(data@))),
        final(text_buf)@ == win1252_utf8(data@),
{
    win1252_to_utf8(data, text_buf);
    proof {
        lemma_win1252_len(data@);
    }
    push_be32(out, text_buf.len() as i32);
    append(out, text_buf.as_slice());
    assert(out@ =~= old(out)@ + framed(Some(win1252_utf8(data@))));
}

/// Writes 8 bytes behind their length.
fn push_framed8(out: &mut Vec<u8>, v: u64)
    ensures
        final(out)@ == old(out)@ + framed(Some(be64(v as int))),
{
    push_be32(out, 8);
    push_be64_u(out, v);
    assert(out@ =~= old(out)@ + framed(Some(be64(v as int))));
}

/// `be64` does not see what is above the 64 low bits.
proof fn lemma_low64(n: int, high: int, low: int)
    requires
        n == high * 0x1_0000_0000_0000_0000 + low,
        0 <= low < 0x1_0000_0000_0000_0000,
    ensures
        be64(low) == be64(n),
{
    let upper = low / 0x1_0000_0000;
    assert(n == (high * 0x1_0000_0000 + upper) * 0x1_0000_0000 + low % 0x1_0000_0000);
    assert(n / 0x1_0000_0000 == high * 0x1_0000_0000 + upper);
    assert(n % 0x1_0000_0000 == low % 0x1_0000_0000);
    assert((high * 0x1_0000_0000 + upper) % 0x1_0000_0000 == upper % 0x1_0000_0000);
}

/// The 64 low bits of a number.
fn low64(v: i128) -> (r: u64)
    requires
        -0x1000_0000_0000_0000_0000_0000 <= v <= 0x1000_0000_0000_0000_0000_0000,
    ensures
        be64(r as int) == be64(v as int),
{
    // The shift makes the number positive and leaves its low bits as they are.
    let u: u128 = (v + 0x1000_0000_0000_0000_0000_0000) as u128;
    let r: u64 = (u % 0x1_0000_0000_0000_0000) as u64;
    proof {
        lemma_low64(v as int, (u / 0x1_0000_0000_0000_0000) - 0x1000_0000, r as int);
    }
    r
}

/// Encodes one field in the format of `COPY ... BINARY`. `text_buf` is a scratch buffer
/// for text.
pub fn write_field_binary(rec: &[u8], desc: &Desc, out: &mut Vec<u8>, text_buf: &mut Vec<u8>)
    requires
        field_ok(rec@, *desc),
    ensures
        final(out)@ == old(out)@ + field_bytes(rec@, *desc),
        final(text_buf)@ == (match field_value(rec@, *desc) {
            Some(v) => if is_text(desc.dtype) {
                v
            } else {
                old(text_buf)@
            },
            None => old(text_buf)@,
        }),
{
    let start: u64 = desc.offset as u64;
    let n: u64 = rec.len() as u64;
    let t: u8 = desc.dtype;
    if t == DTYPE_TEXT || t == DTYPE_CSTRING {
        if start >= n || desc.length == 0 {
            push_null(out);
        } else {
            let s: usize = start as usize;
            let end: usize = if rec.len() - s >= desc.length as usize {
                s + desc.length as usize
            } else {
                rec.len()
            };
            let raw: &[u8] = slice_subrange(rec, s, end);
            let tl: usize = blankless_len(raw);
            let kept: &[u8] = slice_subrange(raw, 0, tl);
            assert(kept@ =~= without_blanks(raw@));
            push_text(kept, out, text_buf);
        }
    } else if t == DTYPE_VARYING {
        if start + 2 > n {
            push_null(out);
        } else {
            let s: usize = start as usize;
            let vlen: usize = get_u16(rec, s) as usize;
            let end: usize = if rec.len() - s - 2 >= vlen {
                s + 2 + vlen
            } else {
                rec.len()
            };
            let data: &[u8] = slice_subrange(rec, s + 2, end);
            let tl: usize = blankless_len(data);
            if tl == 0 {
                push_text(data, out, text_buf);
            } else {
                let kept: &[u8] = slice_subrange(data, 0, tl);
                assert(kept@ =~= without_blanks(data@));
                push_text(kept, out, text_buf);
            }
        }
    } else if t == DTYPE_SHORT {
        if start + 2 > n {
            push_null(out);
        } else {
            let v: i16 = to_i16(get_u16(rec, start as usize));
            if desc.scale == 0 {
                push_be32(out, 2);
                push_be16(out, v);
            } else {
                push_framed8(out, scaled_to_bits(v as i64, (-desc.scale) as u8));
            }
        }
    } else if t == DTYPE_LONG {
        if start + 4 > n {
            push_null(out);
        } else {
            let v: i32 = to_i32(get_u32(rec, start as usize));
            if desc.scale == 0 {
                push_be32(out, 4);
                push_be32(out, v);
            } else {
                push_framed8(out, scaled_to_bits(v as i64, (-desc.scale) as u8));
            }
        }
    } else if t == DTYPE_INT64 || t == DTYPE_QUAD {
        if start + 8 > n {
            push_null(out);
        } else {
            let v: i64 = to_i64(get_u64(rec, start as usize));
            if desc.scale == 0 {
                push_be32(out, 8);
                push_be64(out, v);
            } else {
                push_framed8(out, scaled_to_bits(v, (-desc.scale) as u8));
            }
        }
    } else if t == DTYPE_REAL {
        if start + 4 > n {
            push_null(out);
        } else {
            push_be32(out, 4);
            push_be32_u(out, get_u32(rec, start as usize));
        }
    } else if t == DTYPE_DOUBLE || t == DTYPE_D_FLOAT {
        if start + 8 > n {
            push_null(out);
        } else {
            push_framed8(out, get_u64(rec, start as usize));
        }
    } else if t == DTYPE_SQL_DATE {
        if start + 4 > n {
            push_null(out);
        } else {
            let mjd: i32 = to_i32(get_u32(rec, start as usize));
            let day: i64 = mjd as i64 - PG_EPOCH_MJD as i64;
            let low: u32 = ((day + 0x1_0000_0000) % 0x1_0000_0000) as u32;
            assert(low == day as int % 0x1_0000_0000);
            push_be32(out, 4);
            push_be32_u(out, low);
            assert(be32(low as int) == be32(day as int));
        }
    } else if t == DTYPE_SQL_TIME || t == DTYPE_SQL_TIME_TZ {
        if start + 4 > n {
            push_null(out);
        } else {
            let ticks: u32 = get_u32(rec, start as usize);
            push_framed8(out, 100 * ticks as u64);
        }
    } else if t == DTYPE_TIMESTAMP || t == DTYPE_TIMESTAMP_TZ {
        if start + 8 > n {
            push_null(out);
        } else {
            let s: usize = start as usize;
            let mjd: i32 = to_i32(get_u32(rec, s));
            let ticks: u32 = get_u32(rec, s + 4);
            let us: i128 = 86_400_000_000 * (mjd as i128 - PG_EPOCH_MJD as i128) + 100
                * ticks as i128;
            push_framed8(out, low64(us));
        }
    } else if t == DTYPE_BOOLEAN {
        if start >= n {
            push_null(out);
        } else {
            push_be32(out, 1);
            out.push(
                if rec[start as usize] != 0 {
                    1u8
                } else {
                    0u8
                },
            );
        }
    } else if t == DTYPE_DBKEY {
        let s: usize = start as usize;
        let end: usize = if rec.len() - s >= desc.length as usize {
            s + desc.length as usize
        } else {
            rec.len()
        };
        let data: &[u8] = slice_subrange(rec, s, end);
        push_be32(out, data.len() as i32);
        append(out, data);
    } else {
        push_null(out);
    }
    assert(out@ =~= old(out)@ + field_bytes(rec@, *desc));
}

/// A field is its length and that many bytes, or -1 alone.
pub proof fn law_field_framing(rec: Seq<u8>, desc: Desc)
    ensures
        match field_value(rec, desc) {
            None => field_bytes(rec, desc) == be32(-1),
            Some(v) => {
                &&& field_bytes(rec, desc).len() == 4 + v.len()
                &&& field_bytes(rec, desc).take(4) == be32(v.len() as int)
                &&& field_bytes(rec, desc).skip(4) == v
            },
        },
{
    if let Some(v) = field_value(rec, desc) {
        let b = field_bytes(rec, desc);
        assert(b.take(4) =~= be32(v.len() as int));
        assert(b.skip(4) =~= v);
    }
}

// ── Columns ──────────────────────────────────────────────────────────────────

/// A column in the order of the target table: its descriptor in one record format and
/// its place among the null flags. A column that the format does not know is not
/// `present` and is NULL.
#[derive(Debug, Clone, Copy, PartialEq, Eq, Structural)]
pub struct CopySlot {
    pub desc: Desc,
    pub null_byte: usize,
    pub null_mask: u8,
    pub present: bool,
}

pub open spec fn zero_desc() -> Desc {
    Desc { dtype: 0, scale: 0, length: 0, sub_type: 0, flags: 0, offset: 0 }
}

/// The mask of the null flag of a field.
pub open spec fn null_mask(fid: usize) -> u8 {
    1u8 << ((fid % 8) as u8)
}

pub open spec fn copy_slot(fid: usize, descs: Seq<Desc>) -> CopySlot {
    if fid < descs.len() {
        CopySlot {
            desc: descs[fid as int],
            null_byte: (fid / 8) as usize,
            null_mask: null_mask(fid),
            present: true,
        }
    } else {
        CopySlot { desc: zero_desc(), null_byte: 0, null_mask: 0, present: false }
    }
}

/// The field ids of the columns.
pub open spec fn field_ids(v: Seq<(usize, String)>) -> Seq<usize> {
    v.map_values(|c: (usize, String)| c.0)
}

/// The columns `fids` in the format with the descriptors `descs`.
pub open spec fn copy_slots_of(fids: Seq<usize>, descs: Seq<Desc>) -> Seq<CopySlot> {
    fids.map_values(|fid: usize| copy_slot(fid, descs))
}

/// The columns of a table in one record format. Every record names the format that it
/// was written with; columns that were added later have field ids beyond it.
pub fn slots_for_format(field_order: &[(usize, String)], descs: &[Desc]) -> (r: Vec<CopySlot>)
    ensures
        r@ == copy_slots_of(field_ids(field_order@), descs@),
{
    let mut out: Vec<CopySlot> = Vec::new();
    let mut i: usize = 0;
    while i < field_order.len()
        invariant
            i <= field_order@.len(),
            out@.len() == i,
            forall|k: int|
                0 <= k < i ==> out@[k] == copy_slot(field_order@[k].0, descs@),
        decreases field_order@.len() - i,
    {
        let fid: usize = field_order[i].0;
        out.push(
            if fid < descs.len() {
                CopySlot {
                    desc: descs[fid],
                    null_byte: fid / 8,
                    null_mask: 1u8 << ((fid % 8) as u8),
                    present: true,
                }
            } else {
                CopySlot {
                    desc: Desc::default_zero(),
                    null_byte: 0,
                    null_mask: 0,
                    present: false,
                }
            },
        );
        i = i + 1;
    }
    assert(out@ =~= copy_slots_of(field_ids(field_order@), descs@));
    out
}

/// A column that the format of a record does not know is NULL whatever the record holds.
pub proof fn law_added_column_is_null(fid: usize, descs: Seq<Desc>, rec: Seq<u8>)
    requires
        fid >= descs.len(),
    ensures
        slot_value(rec, copy_slot(fid, descs)) is None,
{
}

/// The null flags of a column; a record that is too short has them set.
pub open spec fn null_flags(rec: Seq<u8>, null_byte: usize) -> u8 {
    if null_byte < rec.len() {
        rec[null_byte as int]
    } else {
        0xff
    }
}

/// The value of a column in a record.
pub open spec fn slot_value(rec: Seq<u8>, slot: CopySlot) -> Option<Seq<u8>> {
    if !slot.present || null_flags(rec, slot.null_byte) & slot.null_mask != 0 {
        None
    } else {
        field_value(rec, slot.desc)
    }
}

pub open spec fn slot_ok(rec: Seq<u8>, slot: CopySlot) -> bool {
    !slot.present || null_flags(rec, slot.null_byte) & slot.null_mask != 0 || field_ok(
        rec,
        slot.desc,
    )
}

/// The first `n` columns of a record, one behind the other.
pub open spec fn columns_bytes(rec: Seq<u8>, slots: Seq<CopySlot>, n: int) -> Seq<u8>
    decreases n,
{
    if n <= 0 {
        Seq::empty()
    } else {
        columns_bytes(rec, slots, n - 1) + framed(slot_value(rec, slots[n - 1]))
    }
}

pub open spec fn row_ok(rec: Seq<u8>, slots: Seq<CopySlot>) -> bool {
    forall|i: int| 0 <= i < slots.len() ==> slot_ok(rec, #[trigger] slots[i])
}

/// A row: the number of its columns and the columns.
pub open spec fn row_bytes(rec: Seq<u8>, slots: Seq<CopySlot>, n_fields: i16) -> Seq<u8> {
    be16(n_fields as int) + columns_bytes(rec, slots, slots.len() as int)
}

pub(crate) fn null_flags_of(rec: &[u8], null_byte: usize) -> (r: u8)
    ensures
        r == null_flags(rec@, null_byte),
{
    if null_byte < rec.len() {
        rec[null_byte]
    } else {
        0xff
    }
}

/// Whether a field can be encoded.
fn field_fits(rec: &[u8], desc: &Desc) -> (r: bool)
    ensures
        r == field_ok(rec@, *desc),
{
    let s: usize = desc.offset as usize;
    let n: usize = rec.len();
    let t: u8 = desc.dtype;
    let number: bool = t == DTYPE_SHORT && s <= n && n - s >= 2 || t == DTYPE_LONG && s <= n && n - s
        >= 4 || (t == DTYPE_INT64 || t == DTYPE_QUAD) && s <= n && n - s >= 8;
    (!number || (-18 <= desc.scale && desc.scale <= 0)) && (t != DTYPE_DBKEY || s <= n)
}

/// Whether a column can be encoded.
pub(crate) fn slot_fits_record(rec: &[u8], null_byte: usize, null_mask: u8, desc: &Desc) -> (r: bool)
    ensures
        r == (null_flags(rec@, null_byte) & null_mask != 0 || field_ok(rec@, *desc)),
{
    null_flags_of(rec, null_byte) & null_mask != 0 || field_fits(rec, desc)
}

/// Whether a record can be encoded.
pub(crate) fn row_fits(rec: &[u8], slots: &Vec<CopySlot>) -> (r: bool)
    ensures
        r == row_ok(rec@, slots@),
{
    let mut i: usize = 0;
    while i < slots.len()
        invariant
            i <= slots@.len(),
            forall|k: int| 0 <= k < i ==> slot_ok(rec@, #[trigger] slots@[k]),
        decreases slots@.len() - i,
    {
        let slot: &CopySlot = &slots[i];
        if slot.present && !slot_fits_record(rec, slot.null_byte, slot.null_mask, &slot.desc) {
            assert(!slot_ok(rec@, slots@[i as int]));
            return false;
        }
        i = i + 1;
    }
    true
}

/// Writes a row in the format of `COPY ... BINARY`.
fn write_row(
    rec: &[u8],
    slots: &Vec<CopySlot>,
    n_fields: i16,
    out: &mut Vec<u8>,
    text_buf: &mut Vec<u8>,
)
    requires
        row_ok(rec@, slots@),
    ensures
        final(out)@ == old(out)@ + row_bytes(rec@, slots@, n_fields),
{
    push_be16(out, n_fields);
    let ghost base = out@;
    let mut i: usize = 0;
    while i < slots.len()
        invariant
            i <= slots@.len(),
            row_ok(rec@, slots@),
            out@ == base + columns_bytes(rec@, slots@, i as int),
        decreases slots@.len() - i,
    {
        let slot: CopySlot = slots[i];
        assert(slot_ok(rec@, slots@[i as int]));
        let ghost before = out@;
        if !slot.present || null_flags_of(rec, slot.null_byte) & slot.null_mask != 0 {
            push_null(out);
        } else {
            write_field_binary(rec, &slot.desc, out, text_buf);
        }
        assert(out@ == before + framed(slot_value(rec@, slot)));
        assert(out@ =~= base + columns_bytes(rec@, slots@, i + 1));
        i = i + 1;
    }
    assert(out@ =~= old(out)@ + row_bytes(rec@, slots@, n_fields));
}

// ── The stream of a table ────────────────────────────────────────────────────

/// What every stream starts with: the signature and two empty header fields.
#[verifier::opaque]
pub open spec fn copy_header() -> Seq<u8> {
    seq![
        0x50u8,
        0x47u8,
        0x43u8,
        0x4fu8,
        0x50u8,
        0x59u8,
        0x0au8,
        0xffu8,
        0x0du8,
        0x0au8,
        0u8,
        0u8,
        0u8,
        0u8,
        0u8,
        0u8,
        0u8,
        0u8,
        0u8,
    ]
}

/// What every stream ends with.
pub open spec fn copy_trailer() -> Seq<u8> {
    be16(-1)
}

pub fn push_copy_header(out: &mut Vec<u8>)
    ensures
        final(out)@ == old(out)@ + copy_header(),
{
    let h: [u8; 19] = [
        0x50, 0x47, 0x43, 0x4f, 0x50, 0x59, 0x0a, 0xff, 0x0d, 0x0a, 0, 0, 0, 0, 0, 0, 0, 0, 0,
    ];
    append(out, h.as_slice());
    proof {
        reveal(copy_header);
    }
    assert(h@ =~= copy_header());
}

pub fn push_copy_trailer(out: &mut Vec<u8>)
    ensures
        final(out)@ == old(out)@ + copy_trailer(),
{
    push_be16(out, -1);
}

/// The name of a column that has none: `col_` and its number.
pub open spec fn default_name(i: int) -> Seq<char> {
    seq!['c', 'o', 'l', '_'] + decimal(i as nat)
}

/// Columns named by their numbers.
pub open spec fn default_columns(n: nat) -> Seq<(usize, Seq<char>)> {
    Seq::new(n, |i: int| (i as usize, default_name(i)))
}

pub fn numbered_columns(n: usize) -> (r: Vec<(usize, String)>)
    ensures
        column_views(r@) == default_columns(n as nat),
{
    let mut out: Vec<(usize, String)> = Vec::new();
    let mut i: usize = 0;
    while i < n
        invariant
            i <= n,
            column_views(out@) =~= default_columns(i as nat),
        decreases n - i,
    {
        let mut name: String = String::new();
        name.push('c');
        name.push('o');
        name.push('l');
        name.push('_');
        push_decimal(&mut name, i as u64);
        assert(name@ =~= default_name(i as int));
        let ghost before = out@;
        out.push((i, name));
        assert(column_views(out@) =~= column_views(before).push((i, name@)));
        i = i + 1;
    }
    out
}

impl Image {
    /// The columns of a table in the order of its target, or why they are not known.
    pub open spec fn copy_columns(self, relation_id: u16, table: Seq<char>) -> Option<
        Result<Seq<(usize, Seq<char>)>, OdsError>,
    > {
        match self.format(relation_id, u16::MAX) {
            None => None,
            Some(Err(e)) => Some(Err(e)),
            Some(Ok(descs)) => match self.columns(relation_id, table) {
                None => None,
                Some(Ok(c)) => Some(Ok(c)),
                Some(Err(_)) => Some(Ok(default_columns(descs.len()))),
            },
        }
    }

    /// The descriptors of a format; the latest format stands in for one that cannot be
    /// read.
    pub open spec fn format_or_latest(self, relation_id: u16, fmt: u8) -> Option<
        Option<Seq<Desc>>,
    > {
        match self.format(relation_id, u16::MAX) {
            None => None,
            Some(latest) => match self.format(relation_id, fmt as u16) {
                None => None,
                Some(Ok(d)) => Some(Some(d)),
                Some(Err(_)) => Some(
                    match latest {
                        Ok(d) => Some(d),
                        Err(_) => None,
                    },
                ),
            },
        }
    }

    /// The columns `fids` as the records of a format hold them, none where there is no
    /// format at all.
    pub open spec fn format_slots(self, relation_id: u16, fids: Seq<usize>, fmt: u8) -> Option<
        Seq<CopySlot>,
    > {
        match self.format_or_latest(relation_id, fmt) {
            None => None,
            Some(None) => Some(Seq::empty()),
            Some(Some(d)) => Some(copy_slots_of(fids, d)),
        }
    }

    /// The data of the record `raw` if it is a live row, fragmented or not.
    pub open spec fn live_data(self, raw: Seq<u8>) -> Option<Option<Seq<u8>>> {
        if flagged(raw, RHD_INCOMPLETE) && !flagged(
            raw,
            RHD_DELETED | RHD_FRAGMENT | RHD_BLOB | RHD_CHAIN,
        ) {
            self.fragments(raw, Seq::empty(), MAX_FRAGMENTS as nat)
        } else {
            Some(unpack(raw, false))
        }
    }

    /// The row of the record `raw`: `Some(None)` where it is no live row, `None` where it
    /// cannot be encoded.
    pub open spec fn copy_row(
        self,
        relation_id: u16,
        fids: Seq<usize>,
        n_fields: i16,
        raw: Seq<u8>,
    ) -> Option<Option<Seq<u8>>> {
        if raw.len() < 13 {
            None
        } else {
            match self.live_data(raw) {
                None => None,
                Some(None) => Some(None),
                Some(Some(rec)) => match self.format_slots(relation_id, fids, raw[12]) {
                    None => None,
                    Some(slots) => if row_ok(rec, slots) {
                        Some(Some(row_bytes(rec, slots, n_fields)))
                    } else {
                        None
                    },
                },
            }
        }
    }

    /// Whether the pages of a relation can be listed.
    pub open spec fn pages_listed(self, relation_id: int) -> bool {
        match self.first_pp(relation_id) {
            None => false,
            Some(None) => true,
            Some(Some(pp)) => self.data_pages(pp as int) is Some,
        }
    }

    /// The rows of a table in the order of its pages.
    pub open spec fn copy_rows(
        self,
        relation_id: u16,
        fids: Seq<usize>,
        n_fields: i16,
    ) -> Option<Seq<Seq<u8>>> {
        match (self.format(relation_id, u16::MAX), self.first_pp(relation_id as int)) {
            (None, _) => None,
            (_, None) => None,
            (_, Some(None)) => Some(Seq::empty()),
            (_, Some(Some(pp))) => self.relation(pp as int).collect(
                copy_row_in(self, relation_id, fids, n_fields),
            ),
        }
    }
}

pub open spec fn copy_row_in(
    img: Image,
    relation_id: u16,
    fids: Seq<usize>,
    n_fields: i16,
) -> spec_fn(Seq<u8>) -> Option<Option<Seq<u8>>> {
    |raw: Seq<u8>| img.copy_row(relation_id, fids, n_fields, raw)
}

/// Pieces, one behind the other.
pub open spec fn concat(pieces: Seq<Seq<u8>>) -> Seq<u8>
    decreases pieces.len(),
{
    if pieces.len() == 0 {
        Seq::empty()
    } else {
        concat(pieces.drop_last()) + pieces.last()
    }
}

/// A whole stream.
pub open spec fn copy_stream(rows: Seq<Seq<u8>>) -> Seq<u8> {
    copy_header() + concat(rows) + copy_trailer()
}

/// The columns of a table in the order of its target, and their number.
pub fn copy_slots(db: &OdsReader, relation_id: u16, table: &str) -> (r: Result<
    (Vec<(usize, String)>, i16),
    OdsError,
>)
    requires
        db.wf(),
        db@.copy_columns(relation_id, table@) is Some,
    ensures
        match r {
            Ok((fields, n)) => {
                &&& db@.copy_columns(relation_id, table@) == Some(
                    Ok::<Seq<(usize, Seq<char>)>, OdsError>(column_views(fields@)),
                )
                &&& n == count16(fields@.len() as int)
            },
            Err(e) => db@.copy_columns(relation_id, table@) == Some(
                Err::<Seq<(usize, Seq<char>)>, OdsError>(e),
            ),
        },
{
    let descs: Vec<Desc> = match db.read_format(relation_id, u16::MAX) {
        Ok(d) => d,
        Err(e) => {
            return Err(e);
        },
    };
    let field_order: Vec<(usize, String)> = match db.read_field_names(relation_id, table) {
        Ok(f) => f,
        Err(_) => numbered_columns(descs.len()),
    };
    let n: i16 = to_i16((field_order.len() as u64 % 0x1_0000) as u16);
    Ok((field_order, n))
}

/// What is found first is the first of what is collected.
proof fn lemma_find_is_first<T>(sc: Scan, f: spec_fn(Seq<u8>) -> Option<Option<T>>)
    ensures
        sc.collect(f) is Some ==> sc.find(f) == Some(
            if sc.collect(f)->0.len() > 0 {
                Some(sc.collect(f)->0[0])
            } else {
                None
            },
        ),
    decreases sc.recs.len(),
{
    if sc.recs.len() > 0 {
        lemma_find_is_first(sc.rest(), f);
    }
}

/// The rows of a table, one at a time.
pub struct CopyRows<'d, 'a, 'f> {
    reader: &'d OdsReader<'a>,
    relation_id: u16,
    field_order: &'f [(usize, String)],
    n_fields: i16,
    latest: Option<Vec<Desc>>,
    /// The columns by format, as far as they have been needed.
    cache: Vec<Option<Vec<CopySlot>>>,
    cursor: Option<SlotCursor<'d, 'a>>,
    rec_buf: Vec<u8>,
    text_buf: Vec<u8>,
}

impl<'d, 'a, 'f> CopyRows<'d, 'a, 'f> {
    closed spec fn fids(self) -> Seq<usize> {
        field_ids(self.field_order@)
    }

    pub closed spec fn wf(self) -> bool {
        &&& self.reader.wf()
        &&& self.cache@.len() == 256
        &&& match self.reader@.format(self.relation_id, u16::MAX) {
            None => false,
            Some(Ok(d)) => self.latest is Some && self.latest->0@ == d,
            Some(Err(_)) => self.latest is None,
        }
        &&& forall|f: int|
            0 <= f < 256 && (#[trigger] self.cache@[f]) is Some ==> self.reader@.format_slots(
                self.relation_id,
                self.fids(),
                f as u8,
            ) == Some(self.cache@[f]->0@)
        &&& self.cursor is Some ==> self.cursor->0.wf() && self.cursor->0.db() == self.reader@
    }

    /// The records that are still to be visited.
    closed spec fn records(self) -> Scan {
        match self.cursor {
            None => Scan { recs: Seq::empty(), fault: false },
            Some(cur) => cur.left(),
        }
    }

    /// What a record contributes.
    closed spec fn row_of(self) -> spec_fn(Seq<u8>) -> Option<Option<Seq<u8>>> {
        copy_row_in(self.reader@, self.relation_id, self.fids(), self.n_fields)
    }

    /// The rows that are still to come; `None` where one of them cannot be encoded.
    pub closed spec fn left(self) -> Option<Seq<Seq<u8>>> {
        self.records().collect(self.row_of())
    }

    /// How many records are still to be visited.
    pub closed spec fn records_left(self) -> nat {
        self.records().recs.len()
    }

    /// Whether two values stand for the same table.
    closed spec fn same_table(self, other: Self) -> bool {
        &&& self.reader == other.reader
        &&& self.relation_id == other.relation_id
        &&& self.field_order == other.field_order
        &&& self.n_fields == other.n_fields
    }

    pub fn new(
        reader: &'d OdsReader<'a>,
        relation_id: u16,
        field_order: &'f [(usize, String)],
        n_fields: i16,
    ) -> (r: Self)
        requires
            reader.wf(),
            reader@.format(relation_id, u16::MAX) is Some,
            reader@.pages_listed(relation_id as int),
        ensures
            r.wf(),
            r.left() == reader@.copy_rows(relation_id, field_ids(field_order@), n_fields),
    {
        let latest: Option<Vec<Desc>> = match reader.read_format(relation_id, u16::MAX) {
            Ok(d) => Some(d),
            Err(_) => None,
        };
        let mut cache: Vec<Option<Vec<CopySlot>>> = Vec::new();
        let mut i: usize = 0;
        while i < 256
            invariant
                i <= 256,
                cache@.len() == i,
                forall|k: int| 0 <= k < i ==> cache@[k] is None,
            decreases 256 - i,
        {
            cache.push(None);
            i = i + 1;
        }
        let cursor: Option<SlotCursor<'d, 'a>> = match reader.find_first_pp(relation_id) {
            Some(pp) => Some(SlotCursor::new(reader, pp)),
            None => None,
        };
        CopyRows {
            reader,
            relation_id,
            field_order,
            n_fields,
            latest,
            cache,
            cursor,
            rec_buf: Vec::new(),
            text_buf: Vec::new(),
        }
    }

    /// The rows of a table, if the table can be visited.
    pub fn try_new(
        reader: &'d OdsReader<'a>,
        relation_id: u16,
        field_order: &'f [(usize, String)],
        n_fields: i16,
    ) -> (r: Option<Self>)
        requires
            reader.wf(),
        ensures
            r is Some <==> reader@.format(relation_id, u16::MAX) is Some && reader@.pages_listed(
                relation_id as int,
            ),
            r is Some ==> r->0.wf() && r->0.left() == reader@.copy_rows(
                relation_id,
                field_ids(field_order@),
                n_fields,
            ),
            r is None ==> reader@.copy_rows(relation_id, field_ids(field_order@), n_fields) is None,
    {
        if !reader.format_fits(relation_id, u16::MAX) {
            return None;
        }
        match reader.try_first_pp(relation_id) {
            None => {
                return None;
            },
            Some(None) => {},
            Some(Some(pp)) => {
                if reader.try_data_pages(pp).is_none() {
                    return None;
                }
            },
        }
        Some(CopyRows::new(reader, relation_id, field_order, n_fields))
    }

    /// Makes sure that the columns of a format are in the cache.
    fn load_format(&mut self, fmt: u8)
        requires
            old(self).wf(),
            old(self).reader@.format_slots(old(self).relation_id, old(self).fids(), fmt) is Some,
        ensures
            final(self).wf(),
            final(self).cache@[fmt as int] is Some,
            final(self).same_table(*old(self)),
            final(self).cursor == old(self).cursor,
            final(self).rec_buf == old(self).rec_buf,
    {
        if self.cache[fmt as usize].is_some() {
            return;
        }
        let slots: Vec<CopySlot> = match self.reader.read_format(self.relation_id, fmt as u16) {
            Ok(d) => slots_for_format(self.field_order, d.as_slice()),
            Err(_) => match &self.latest {
                Some(d) => slots_for_format(self.field_order, d.as_slice()),
                None => Vec::new(),
            },
        };
        proof {
            let want = self.reader@.format_slots(self.relation_id, self.fids(), fmt);
            assert(want->0 =~= slots@);
        }
        let ghost before = self.cache@;
        self.cache.set(fmt as usize, Some(slots));
        proof {
            assert forall|f: int|
                0 <= f < 256 && (#[trigger] self.cache@[f]) is Some implies self.reader@.format_slots(
                self.relation_id,
                self.fids(),
                f as u8,
            ) == Some(self.cache@[f]->0@) by {
                if f != fmt {
                    assert(self.cache@[f] == before[f]);
                }
            }
        }
    }

    /// Goes on to the next record, if it can be read.
    fn advance(&mut self) -> (r: Option<Option<&'a [u8]>>)
        requires
            old(self).wf(),
        ensures
            final(self).wf(),
            final(self).same_table(*old(self)),
            match r {
                Some(Some(raw)) => {
                    &&& old(self).records().recs.len() > 0
                    &&& raw@ == old(self).records().recs[0]
                    &&& final(self).records() == old(self).records().rest()
                },
                Some(None) => {
                    &&& old(self).records().recs.len() == 0
                    &&& !old(self).records().fault
                    &&& final(self).records() == old(self).records()
                },
                None => !old(self).records().readable(),
            },
    {
        match &mut self.cursor {
            None => Some(None),
            Some(cur) => cur.try_next(),
        }
    }

    /// Whether the record `raw` can be encoded. Where it is a live row, it is then in the
    /// buffer and its columns are in the cache.
    fn try_load(&mut self, raw: &'a [u8]) -> (r: Option<bool>)
        requires
            old(self).wf(),
        ensures
            final(self).wf(),
            final(self).same_table(*old(self)),
            final(self).cursor == old(self).cursor,
            ({
                let row = old(self).reader@.copy_row(
                    old(self).relation_id,
                    old(self).fids(),
                    old(self).n_fields,
                    raw@,
                );
                match r {
                    None => row is None,
                    Some(false) => row == Some(None::<Seq<u8>>),
                    Some(true) => {
                        let slots = old(self).reader@.format_slots(
                            old(self).relation_id,
                            old(self).fids(),
                            raw@[12],
                        );
                        &&& raw@.len() >= 13
                        &&& slots is Some
                        &&& row_ok(final(self).rec_buf@, slots->0)
                        &&& row == Some(
                            Some(row_bytes(final(self).rec_buf@, slots->0, old(self).n_fields)),
                        )
                    },
                }
            }),
    {
        if raw.len() < 13 || !self.reader.live_data_fits(raw) {
            return None;
        }
        if !self.load_record(raw) {
            return Some(false);
        }
        let fmt: u8 = raw[12];
        if self.cache[fmt as usize].is_none() && !self.reader.format_fits(
            self.relation_id,
            fmt as u16,
        ) {
            return None;
        }
        self.load_format(fmt);
        if let Some(slots) = &self.cache[fmt as usize] {
            if !row_fits(self.rec_buf.as_slice(), slots) {
                return None;
            }
        }
        Some(true)
    }

    /// Unpacks a record into the buffer; false where it is no live row.
    fn load_record(&mut self, raw: &'a [u8]) -> (r: bool)
        requires
            old(self).wf(),
            raw@.len() >= 13,
            old(self).reader@.live_data(raw@) is Some,
        ensures
            final(self).wf(),
            final(self).same_table(*old(self)),
            final(self).cursor == old(self).cursor,
            final(self).cache == old(self).cache,
            old(self).reader@.live_data(raw@) == Some(
                if r {
                    Some(final(self).rec_buf@)
                } else {
                    None
                },
            ),
    {
        let fl: u16 = get_u16(raw, 10);
        if fl & RHD_INCOMPLETE != 0 && fl & (RHD_DELETED | RHD_FRAGMENT | RHD_BLOB | RHD_CHAIN)
            == 0 {
            match self.reader.reassemble_fragments(raw) {
                Some(v) => {
                    self.rec_buf = v;
                    true
                },
                None => false,
            }
        } else {
            unpack_record_into(raw, &mut self.rec_buf)
        }
    }

    /// Appends the row that is in the buffer.
    fn put_row(&mut self, fmt: u8, out: &mut Vec<u8>)
        requires
            old(self).wf(),
            old(self).reader@.format_slots(old(self).relation_id, old(self).fids(), fmt) is Some,
            row_ok(
                old(self).rec_buf@,
                old(self).reader@.format_slots(old(self).relation_id, old(self).fids(), fmt)->0,
            ),
        ensures
            final(self).wf(),
            final(self).same_table(*old(self)),
            final(self).cursor == old(self).cursor,
            final(out)@ == old(out)@ + row_bytes(
                old(self).rec_buf@,
                old(self).reader@.format_slots(old(self).relation_id, old(self).fids(), fmt)->0,
                old(self).n_fields,
            ),
    {
        self.load_format(fmt);
        if let Some(slots) = &self.cache[fmt as usize] {
            write_row(self.rec_buf.as_slice(), slots, self.n_fields, out, &mut self.text_buf);
        }
    }

    /// Whether every record that is still to be visited can be read and encoded.
    pub fn fits(&mut self) -> (r: bool)
        requires
            old(self).wf(),
        ensures
            r == (old(self).left() is Some),
    {
        let ghost f = self.row_of();
        loop
            invariant
                self.wf(),
                self.same_table(*old(self)),
                f == self.row_of(),
                f == old(self).row_of(),
                self.left() is Some == (old(self).left() is Some),
            decreases self.records_left(),
        {
            let raw: &'a [u8] = match self.advance() {
                None => {
                    return false;
                },
                Some(None) => {
                    return true;
                },
                Some(Some(raw)) => raw,
            };
            assert(f(raw@) == self.reader@.copy_row(
                self.relation_id,
                self.fids(),
                self.n_fields,
                raw@,
            ));
            if self.try_load(raw).is_none() {
                return false;
            }
        }
    }

    /// The next row: `Some(None)` where there is none, `None` where a record before it, or its
    /// own, cannot be encoded.
    pub closed spec fn next(self) -> Option<Option<Seq<u8>>> {
        self.records().find(self.row_of())
    }

    /// What is left behind the next row, if every record can be encoded.
    pub proof fn lemma_next(self)
        ensures
            self.left() is Some ==> self.next() == Some(
                if self.left()->0.len() > 0 {
                    Some(self.left()->0[0])
                } else {
                    None
                },
            ),
    {
        lemma_find_is_first(self.records(), self.row_of());
    }

    /// Appends the next row to `out`, if it can be encoded; false where there is none.
    pub fn try_next_row(&mut self, out: &mut Vec<u8>) -> (r: Option<bool>)
        requires
            old(self).wf(),
        ensures
            final(self).wf(),
            match old(self).next() {
                None => r is None && final(out)@ == old(out)@,
                Some(None) => {
                    &&& r == Some(false)
                    &&& final(out)@ == old(out)@
                    &&& old(self).left() is Some ==> final(self).left() == old(self).left()
                },
                Some(Some(row)) => {
                    &&& r == Some(true)
                    &&& row.len() >= 2
                    &&& final(out)@ == old(out)@ + row
                    &&& final(self).records_left() < old(self).records_left()
                    &&& old(self).left() is Some ==> final(self).left() == Some(
                        old(self).left()->0.skip(1),
                    )
                },
            },
    {
        let ghost f = self.row_of();
        loop
            invariant
                self.wf(),
                self.same_table(*old(self)),
                f == self.row_of(),
                f == old(self).row_of(),
                self.next() == old(self).next(),
                old(self).left() is Some ==> self.left() == old(self).left(),
                self.records_left() <= old(self).records_left(),
                out@ == old(out)@,
            decreases self.records_left(),
        {
            let ghost sc = self.records();
            let raw: &'a [u8] = match self.advance() {
                None => {
                    return None;
                },
                Some(None) => {
                    return Some(false);
                },
                Some(Some(raw)) => raw,
            };
            assert(self.row_of() == f);
            assert(f(raw@) == self.reader@.copy_row(
                self.relation_id,
                self.fids(),
                self.n_fields,
                raw@,
            ));
            match self.try_load(raw) {
                None => {
                    return None;
                },
                Some(true) => {
                    self.put_row(raw[12], out);
                    proof {
                        if old(self).left() is Some {
                            assert(sc.collect(f)->0.skip(1) =~= sc.rest().collect(f)->0);
                        }
                    }
                    return Some(true);
                },
                Some(false) => {},
            }
        }
    }

    /// Appends the next row to `out`; false where there is none.
    pub fn next_row(&mut self, out: &mut Vec<u8>) -> (r: bool)
        requires
            old(self).wf(),
            old(self).left() is Some,
        ensures
            final(self).wf(),
            r ==> {
                &&& old(self).left()->0.len() > 0
                &&& final(out)@ == old(out)@ + old(self).left()->0[0]
                &&& old(self).left()->0[0].len() >= 2
                &&& final(self).left() == Some(old(self).left()->0.skip(1))
                &&& final(self).records_left() < old(self).records_left()
            },
            !r ==> {
                &&& old(self).left()->0.len() == 0
                &&& final(out)@ == old(out)@
                &&& final(self).left() == old(self).left()
            },
    {
        proof {
            self.lemma_next();
        }
        match self.try_next_row(out) {
            Some(more) => more,
            None => false,
        }
    }
}

// ── A whole stream ───────────────────────────────────────────────────────────

/// After how many rows progress is reported again.
pub const PROGRESS_ROWS: u64 = 10_000;

/// The numbers of rows at which progress is reported while `n` rows are written.
pub open spec fn progress_marks(n: nat) -> Seq<u64> {
    Seq::new(
        (n / (PROGRESS_ROWS as nat)) as nat,
        |k: int| (PROGRESS_ROWS * (k + 1)) as u64,
    )
}

/// Whether progress is due once `count` rows are written.
pub fn progress_due(count: u64) -> (r: bool)
    ensures
        r == (count as int % PROGRESS_ROWS as int == 0),
{
    count % PROGRESS_ROWS == 0
}

proof fn lemma_progress_step(n: nat)
    requires
        n < u64::MAX,
    ensures
        progress_marks(n + 1) == if (n + 1) % (PROGRESS_ROWS as nat) == 0 {
            progress_marks(n).push((n + 1) as u64)
        } else {
            progress_marks(n)
        },
{
    let a = progress_marks(n);
    let b = progress_marks(n + 1);
    if (n + 1) % (PROGRESS_ROWS as nat) == 0 {
        assert(b =~= a.push((n + 1) as u64));
    } else {
        assert(b =~= a);
    }
}

/// What a step of a stream did.
#[derive(Clone, Copy, PartialEq, Eq, Debug, Structural)]
pub enum StreamStep {
    /// It wrote the header or a row.
    Part,
    /// It wrote a row, and progress is due: so many rows are written.
    Progress(u64),
    /// It wrote the trailer behind so many rows; the stream is complete.
    End(u64),
}

/// The stream of a table, written step by step: the header, every live row, the trailer.
pub struct CopyStream<'d, 'a, 'f> {
    rows: CopyRows<'d, 'a, 'f>,
    count: u64,
    started: bool,
    ended: bool,
}

impl<'d, 'a, 'f> CopyStream<'d, 'a, 'f> {
    pub closed spec fn wf(self) -> bool {
        self.rows.wf()
    }

    /// Whether the header is written.
    pub closed spec fn started(self) -> bool {
        self.started
    }

    /// Whether the trailer is written.
    pub closed spec fn ended(self) -> bool {
        self.ended
    }

    /// How many rows are written.
    pub closed spec fn count(self) -> u64 {
        self.count
    }

    /// The next row, as far as it can be encoded.
    pub closed spec fn next_row(self) -> Option<Option<Seq<u8>>> {
        self.rows.next()
    }

    /// The rows that are still to come; `None` where one of them cannot be encoded.
    pub closed spec fn left(self) -> Option<Seq<Seq<u8>>> {
        self.rows.left()
    }

    /// How many records are still to be visited.
    pub closed spec fn records_left(self) -> nat {
        self.rows.records_left()
    }

    /// Starts the stream of `rows`.
    pub fn new(rows: CopyRows<'d, 'a, 'f>) -> (r: Self)
        requires
            rows.wf(),
        ensures
            r.wf(),
            !r.started() && !r.ended(),
            r.count() == 0,
            r.left() == rows.left(),
            r.next_row() == rows.next(),
    {
        CopyStream { rows, count: 0, started: false, ended: false }
    }

    /// The next row is the first of those that are to come.
    pub proof fn lemma_next(self)
        ensures
            self.left() is Some ==> self.next_row() == Some(
                if self.left()->0.len() > 0 {
                    Some(self.left()->0[0])
                } else {
                    None
                },
            ),
    {
        self.rows.lemma_next();
    }

    /// Appends the next part of the stream to `out`; `None` where a row cannot be encoded.
    pub fn step(&mut self, out: &mut Vec<u8>) -> (r: Option<StreamStep>)
        requires
            old(self).wf(),
            !old(self).ended(),
            old(self).count() < u64::MAX,
        ensures
            final(self).wf(),
            final(self).started(),
            final(self).ended() == (r is Some && r->0 is End),
            if !old(self).started() {
                &&& r == Some(StreamStep::Part)
                &&& final(out)@ == old(out)@ + copy_header()
                &&& final(self).count() == old(self).count()
                &&& final(self).left() == old(self).left()
                &&& final(self).next_row() == old(self).next_row()
                &&& final(self).records_left() == old(self).records_left()
            } else {
                match old(self).next_row() {
                    None => r is None && final(out)@ == old(out)@,
                    Some(None) => {
                        &&& r == Some(StreamStep::End(old(self).count()))
                        &&& final(out)@ == old(out)@ + copy_trailer()
                    },
                    Some(Some(row)) => {
                        let n = (old(self).count() + 1) as u64;
                        &&& r == Some(
                            if n as int % PROGRESS_ROWS as int == 0 {
                                StreamStep::Progress(n)
                            } else {
                                StreamStep::Part
                            },
                        )
                        &&& final(out)@ == old(out)@ + row
                        &&& row.len() >= 2
                        &&& final(self).count() == n
                        &&& final(self).records_left() < old(self).records_left()
                        &&& old(self).left() is Some ==> final(self).left() == Some(
                            old(self).left()->0.skip(1),
                        )
                    },
                }
            },
    {
        if !self.started {
            self.started = true;
            push_copy_header(out);
            return Some(StreamStep::Part);
        }
        match self.rows.try_next_row(out) {
            None => None,
            Some(false) => {
                push_copy_trailer(out);
                self.ended = true;
                Some(StreamStep::End(self.count))
            },
            Some(true) => {
                self.count = self.count + 1;
                if progress_due(self.count) {
                    Some(StreamStep::Progress(self.count))
                } else {
                    Some(StreamStep::Part)
                }
            },
        }
    }
}

/// One more row of a stream.
proof fn lemma_stream_row(rows: Seq<Seq<u8>>, base: Seq<u8>, n: int)
    requires
        0 <= n < rows.len(),
    ensures
        rows.skip(n).len() > 0,
        rows.skip(n)[0] == rows[n],
        rows.skip(n).skip(1) == rows.skip(n + 1),
        base + concat(rows.take(n)) + rows[n] == base + concat(rows.take(n + 1)),
{
    assert(rows.skip(n).skip(1) =~= rows.skip(n + 1));
    assert(rows.take(n + 1).drop_last() =~= rows.take(n));
    assert(base + concat(rows.take(n)) + rows[n] =~= base + concat(rows.take(n + 1)));
}

/// The start of a stream, before its first row.
proof fn lemma_stream_start(rows: Seq<Seq<u8>>, base: Seq<u8>, marks: Seq<u64>)
    ensures
        rows.skip(0) == rows,
        base + concat(rows.take(0)) == base,
        marks + progress_marks(0) == marks,
{
    assert(rows.skip(0) =~= rows);
    assert(rows.take(0) =~= Seq::empty());
    assert(base + concat(rows.take(0)) =~= base);
    assert(marks + progress_marks(0) =~= marks);
}

/// The end of a stream, behind its last row.
proof fn lemma_stream_end(rows: Seq<Seq<u8>>, start: Seq<u8>)
    ensures
        rows.take(rows.len() as int) == rows,
        start + copy_header() + concat(rows) + copy_trailer() == start + copy_stream(rows),
{
    assert(rows.take(rows.len() as int) =~= rows);
    assert(start + copy_header() + concat(rows) + copy_trailer() =~= start + copy_stream(rows));
}

/// One more row of a stream as far as progress goes.
proof fn lemma_progress_marked(marks: Seq<u64>, n: nat)
    requires
        n < u64::MAX,
    ensures
        marks + progress_marks(n + 1) == if (n + 1) % (PROGRESS_ROWS as nat) == 0 {
            (marks + progress_marks(n)).push((n + 1) as u64)
        } else {
            marks + progress_marks(n)
        },
{
    lemma_progress_step(n);
    assert(marks + progress_marks(n).push((n + 1) as u64) =~= (marks + progress_marks(n)).push(
        (n + 1) as u64,
    ));
}

/// Writes the whole stream of a table: header, every live row, trailer. Returns the
/// number of rows. The numbers at which progress is due are appended to `progress`.
pub fn write_copy_stream(
    db: &OdsReader,
    relation_id: u16,
    field_order: &[(usize, String)],
    n_fields: i16,
    out: &mut Vec<u8>,
    progress: &mut Vec<u64>,
) -> (r: u64)
    requires
        db.wf(),
        db@.copy_rows(relation_id, field_ids(field_order@), n_fields) is Some,
    ensures
        final(out)@ == old(out)@ + copy_stream(
            db@.copy_rows(relation_id, field_ids(field_order@), n_fields)->0,
        ),
        r == db@.copy_rows(relation_id, field_ids(field_order@), n_fields)->0.len(),
        final(progress)@ == old(progress)@ + progress_marks(r as nat),
{
    let ghost rows = db@.copy_rows(relation_id, field_ids(field_order@), n_fields)->0;
    let ghost start = out@;
    let ghost marks = progress@;
    let mut it: CopyStream = CopyStream::new(
        CopyRows::new(db, relation_id, field_order, n_fields),
    );
    it.step(out);
    let ghost base = out@;
    let ghost mut n: int = 0;
    proof {
        lemma_stream_start(rows, base, marks);
    }
    loop
        invariant
            it.wf(),
            it.started(),
            !it.ended(),
            0 <= n <= rows.len(),
            it.count() == n,
            2 * n <= out@.len(),
            it.left() == Some(rows.skip(n)),
            base == start + copy_header(),
            start == old(out)@,
            marks == old(progress)@,
            rows == db@.copy_rows(relation_id, field_ids(field_order@), n_fields)->0,
            out@ == base + concat(rows.take(n)),
            progress@ == marks + progress_marks(n as nat),
        decreases rows.len() - n,
    {
        proof {
            it.lemma_next();
            assert(out.len() <= usize::MAX);
            lemma_progress_marked(marks, n as nat);
            if n < rows.len() {
                lemma_stream_row(rows, base, n);
            } else {
                lemma_stream_end(rows, start);
            }
        }
        match it.step(out) {
            Some(StreamStep::End(count)) => {
                return count;
            },
            Some(StreamStep::Progress(count)) => {
                progress.push(count);
            },
            _ => {},
        }
        proof {
            n = n + 1;
        }
    }
}

} // verus!
