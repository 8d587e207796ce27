//! What the columns of a record are worth: which are NULL, and what the others hold.
use crate::bytes::{be16, be32, be64, byte_of, le16, le32, le64, lemma_be32_round_trip, signed};
use crate::cdc::{build_slots, slot_info, SlotInfo};
use crate::copy_laws::column_values;
use crate::extract::{
    copy_slot, copy_slots_of, field_ids, field_value, slot_value, slots_for_format, without_blanks,
    CopySlot,
};
use crate::ods::Desc;
use crate::sync::column_infos;
use crate::win1252::{win1252_char, win1252_text, win1252_utf8};
use vstd::arithmetic::power2::{lemma2_to64, pow2};
use vstd::prelude::*;

verus! {

// ── NULL ─────────────────────────────────────────────────────────────────────

/// Whether the null flag of a field is set: one bit for each field, eight to a byte, the
/// lowest bit first.
pub open spec fn flag_set(rec: Seq<u8>, fid: int) -> bool {
    (rec[fid / 8] as int / pow2((fid % 8) as nat) as int) % 2 == 1
}

proof fn lemma_bit(b: u8, k: u8)
    requires
        k < 8,
    ensures
        (b & (1u8 << k) != 0) <==> (b as int / pow2(k as nat) as int) % 2 == 1,
{
    lemma2_to64();
    assert((k == 0 ==> ((b & (1u8 << k) != 0) <==> (b / 1) % 2 == 1)) && (k == 1 ==> ((b & (1u8
        << k) != 0) <==> (b / 2) % 2 == 1)) && (k == 2 ==> ((b & (1u8 << k) != 0) <==> (b / 4) % 2
        == 1)) && (k == 3 ==> ((b & (1u8 << k) != 0) <==> (b / 8) % 2 == 1)) && (k == 4 ==> ((b
        & (1u8 << k) != 0) <==> (b / 16) % 2 == 1)) && (k == 5 ==> ((b & (1u8 << k) != 0) <==> (b
        / 32) % 2 == 1)) && (k == 6 ==> ((b & (1u8 << k) != 0) <==> (b / 64) % 2 == 1)) && (k == 7
        ==> ((b & (1u8 << k) != 0) <==> (b / 128) % 2 == 1))) by (bit_vector)
        requires
            k < 8,
    ;
}

/// A column is NULL exactly where the bit of its field is set, in a whole load and in a
/// delta; else it has the value of its field.
pub proof fn law_null_flag(
    fids: Seq<usize>,
    cols: Seq<(usize, Seq<char>)>,
    descs: Seq<Desc>,
    rec: Seq<u8>,
    i: int,
)
    requires
        0 <= i < fids.len(),
        fids[i] < descs.len(),
        fids[i] / 8 < rec.len(),
        0 <= i < cols.len(),
        cols[i].0 == fids[i],
    ensures
        column_values(rec, copy_slots_of(fids, descs))[i] == (if flag_set(rec, fids[i] as int) {
            None
        } else {
            field_value(rec, descs[fids[i] as int])
        }),
        slot_value(rec, column_infos(cols, descs)[i].column()) == (if flag_set(
            rec,
            fids[i] as int,
        ) {
            None
        } else {
            field_value(rec, descs[fids[i] as int])
        }),
{
    let fid = fids[i];
    lemma_bit(rec[fid as int / 8], (fid % 8) as u8);
    assert(copy_slots_of(fids, descs)[i] == copy_slot(fid, descs));
    assert(column_infos(cols, descs)[i] == slot_info(fid, descs));
}

/// A record that ends before the flag of a column has NULL there.
pub proof fn law_short_record_is_null(
    fids: Seq<usize>,
    cols: Seq<(usize, Seq<char>)>,
    descs: Seq<Desc>,
    rec: Seq<u8>,
    i: int,
)
    requires
        0 <= i < fids.len(),
        fids[i] / 8 >= rec.len(),
        0 <= i < cols.len(),
        cols[i].0 == fids[i],
    ensures
        column_values(rec, copy_slots_of(fids, descs))[i] is None,
        slot_value(rec, column_infos(cols, descs)[i].column()) is None,
{
    let fid = fids[i];
    let k: u8 = (fid % 8) as u8;
    assert(0xffu8 & (1u8 << k) != 0) by (bit_vector)
        requires
            k < 8,
    ;
}

/// Two fields do not share a flag: with the flag of one set, every other flag is as it was.
pub proof fn law_flags_are_apart(rec: Seq<u8>, rec2: Seq<u8>, a: int, b: int)
    requires
        0 <= a,
        0 <= b,
        a != b,
        a / 8 < rec.len(),
        b / 8 < rec.len(),
        !flag_set(rec, a),
        rec2.len() == rec.len(),
        rec2[a / 8] == rec[a / 8] + pow2((a % 8) as nat),
        forall|i: int| 0 <= i < rec.len() && i != a / 8 ==> rec2[i] == rec[i],
    ensures
        flag_set(rec2, a),
        flag_set(rec2, b) == flag_set(rec, b),
{
    lemma2_to64();
    let x = rec[a / 8] as int;
    let p = pow2((a % 8) as nat) as int;
    let q = pow2((b % 8) as nat) as int;
    assert((x + p) / p == x / p + 1) by (nonlinear_arith)
        requires
            p > 0,
    ;
    if a / 8 == b / 8 {
        assert(a % 8 != b % 8);
        let y: u8 = rec[a / 8];
        let z: u8 = rec2[a / 8];
        lemma_bit_kept(y, z, (a % 8) as u8, (b % 8) as u8);
    }
}

proof fn lemma_bit_kept(y: u8, z: u8, k: u8, l: u8)
    requires
        k < 8,
        l < 8,
        k != l,
        (y as int / pow2(k as nat) as int) % 2 == 0,
        z == y + pow2(k as nat),
    ensures
        (z as int / pow2(l as nat) as int) % 2 == (y as int / pow2(l as nat) as int) % 2,
{
    lemma2_to64();
    lemma_bit(y, k);
    lemma_bit(y, l);
    lemma_bit(z, l);
    assert((k == 0 ==> (1u8 << k) == 1) && (k == 1 ==> (1u8 << k) == 2) && (k == 2 ==> (1u8 << k)
        == 4) && (k == 3 ==> (1u8 << k) == 8) && (k == 4 ==> (1u8 << k) == 16) && (k == 5 ==> (1u8
        << k) == 32) && (k == 6 ==> (1u8 << k) == 64) && (k == 7 ==> (1u8 << k) == 128))
        by (bit_vector)
        requires
            k < 8,
    ;
    assert(z == y + (1u8 << k));
    let w: u8 = 1u8 << k;
    assert((z & (1u8 << l) != 0) == (y & (1u8 << l) != 0)) by (bit_vector)
        requires
            k < 8,
            l < 8,
            k != l,
            w == (1u8 << k),
            y & (1u8 << k) == 0,
            z == y + w,
    ;
}

/// What a field holds depends on the record from its offset on, and on nothing before it.
pub proof fn law_field_lies_behind_its_offset(rec: Seq<u8>, rec2: Seq<u8>, desc: Desc)
    requires
        rec2.len() == rec.len(),
        desc.offset <= rec.len(),
        forall|i: int| desc.offset <= i < rec.len() ==> rec2[i] == rec[i],
    ensures
        field_value(rec2, desc) == field_value(rec, desc),
{
    let s = desc.offset as int;
    let n = rec.len() as int;
    let end = if s + desc.length <= n {
        s + desc.length
    } else {
        n
    };
    assert(rec2.subrange(s, end) =~= rec.subrange(s, end));
    if s + 2 <= n {
        let vend = if s + 2 + le16(rec, s) <= n {
            s + 2 + le16(rec, s)
        } else {
            n
        };
        assert(rec2.subrange(s + 2, vend) =~= rec.subrange(s + 2, vend));
    }
}

/// Setting a column to NULL changes no other column, wherever the fields lie behind the flags.
pub proof fn law_null_changes_no_other_column(
    fids: Seq<usize>,
    descs: Seq<Desc>,
    rec: Seq<u8>,
    rec2: Seq<u8>,
    i: int,
    j: int,
)
    requires
        0 <= i < fids.len(),
        0 <= j < fids.len(),
        fids[i] != fids[j],
        fids[i] < descs.len(),
        fids[j] < descs.len(),
        fids[i] / 8 < rec.len(),
        fids[j] / 8 < rec.len(),
        !flag_set(rec, fids[i] as int),
        rec2.len() == rec.len(),
        rec2[fids[i] as int / 8] == rec[fids[i] as int / 8] + pow2((fids[i] as int % 8) as nat),
        forall|k: int| 0 <= k < rec.len() && k != fids[i] as int / 8 ==> rec2[k] == rec[k],
        fids[i] / 8 < descs[fids[j] as int].offset <= rec.len(),
    ensures
        column_values(rec2, copy_slots_of(fids, descs))[i] is None,
        column_values(rec2, copy_slots_of(fids, descs))[j] == column_values(
            rec,
            copy_slots_of(fids, descs),
        )[j],
{
    let a = fids[i] as int;
    let b = fids[j] as int;
    let none = |f: usize| (f, Seq::<char>::empty());
    let cols = fids.map_values(none);
    law_flags_are_apart(rec, rec2, a, b);
    law_null_flag(fids, cols, descs, rec, j);
    law_null_flag(fids, cols, descs, rec2, j);
    law_null_flag(fids, cols, descs, rec2, i);
    law_field_lies_behind_its_offset(rec, rec2, descs[b]);
}

// ── Numbers ──────────────────────────────────────────────────────────────────

/// The number that bytes make, the most significant first.
pub open spec fn big_endian(s: Seq<u8>) -> int
    decreases s.len(),
{
    if s.len() == 0 {
        0
    } else {
        0x100 * big_endian(s.drop_last()) + s.last()
    }
}

/// The number that bytes make, the least significant first.
pub open spec fn little_endian(s: Seq<u8>) -> int
    decreases s.len(),
{
    if s.len() == 0 {
        0
    } else {
        s[0] + 0x100 * little_endian(s.skip(1))
    }
}

/// The number with a sign that 32 bits make.
pub open spec fn with_sign(n: int) -> int {
    if n < 0x8000_0000 {
        n
    } else {
        n - 0x1_0000_0000
    }
}

proof fn lemma_big2(s: Seq<u8>)
    requires
        s.len() == 2,
    ensures
        big_endian(s) == 0x100 * s[0] + s[1],
{
    let a = s.drop_last();
    let b = a.drop_last();
    assert(big_endian(b) == 0);
    assert(big_endian(a) == s[0]);
}

proof fn lemma_big4(s: Seq<u8>)
    requires
        s.len() == 4,
    ensures
        big_endian(s) == 0x100_0000 * s[0] + 0x1_0000 * s[1] + 0x100 * s[2] + s[3],
{
    let a = s.drop_last();
    let b = a.drop_last();
    lemma_big2(b);
    assert(big_endian(a) == 0x100 * big_endian(b) + s[2]);
}

proof fn lemma_big8(s: Seq<u8>)
    requires
        s.len() == 8,
    ensures
        big_endian(s) == 0x1_0000_0000 * big_endian(s.take(4)) + big_endian(s.skip(4)),
{
    lemma_big4(s.take(4));
    lemma_big4(s.skip(4));
    let a = s.drop_last();
    let b = a.drop_last();
    let c = b.drop_last();
    let d = c.drop_last();
    assert(d =~= s.take(4));
    assert(big_endian(c) == 0x100 * big_endian(d) + s[4]);
    assert(big_endian(b) == 0x100 * big_endian(c) + s[5]);
    assert(big_endian(a) == 0x100 * big_endian(b) + s[6]);
    assert(big_endian(s) == 0x100 * big_endian(a) + s[7]);
}

pub proof fn lemma_little2(s: Seq<u8>, i: int)
    requires
        0 <= i,
        i + 2 <= s.len(),
    ensures
        little_endian(s.subrange(i, i + 2)) == le16(s, i),
{
    let w = s.subrange(i, i + 2);
    let a = w.skip(1);
    assert(little_endian(a.skip(1)) == 0);
    assert(little_endian(a) == a[0]);
}

pub proof fn lemma_little4(s: Seq<u8>, i: int)
    requires
        0 <= i,
        i + 4 <= s.len(),
    ensures
        little_endian(s.subrange(i, i + 4)) == le32(s, i),
{
    let w = s.subrange(i, i + 4);
    let a = w.skip(1);
    let b = a.skip(1);
    assert(b =~= s.subrange(i + 2, i + 4));
    lemma_little2(s, i + 2);
    assert(little_endian(a) == a[0] + 0x100 * little_endian(b));
}

pub proof fn lemma_little8(s: Seq<u8>, i: int)
    requires
        0 <= i,
        i + 8 <= s.len(),
    ensures
        little_endian(s.subrange(i, i + 8)) == le64(s, i),
{
    let w = s.subrange(i, i + 8);
    let a = w.skip(1);
    let b = a.skip(1);
    let c = b.skip(1);
    let d = c.skip(1);
    assert(d =~= s.subrange(i + 4, i + 8));
    lemma_little4(s, i + 4);
    assert(little_endian(c) == c[0] + 0x100 * little_endian(d));
    assert(little_endian(b) == b[0] + 0x100 * little_endian(c));
    assert(little_endian(a) == a[0] + 0x100 * little_endian(b));
}

proof fn lemma_written16(n: int)
    ensures
        be16(n).len() == 2,
        big_endian(be16(n)) == n % 0x1_0000,
{
    reveal(byte_of);
    lemma_big2(be16(n));
}

proof fn lemma_written32(n: int)
    ensures
        be32(n).len() == 4,
        big_endian(be32(n)) == n % 0x1_0000_0000,
{
    let m = n % 0x1_0000_0000;
    let s = be32(n);
    assert(m % 0x1_0000_0000 == m);
    assert(s.subrange(0, 4) =~= be32(m));
    lemma_be32_round_trip(m, s, 0);
    lemma_big4(s);
}

/// What big-endian writers write.
pub proof fn lemma_written(n: int)
    ensures
        be16(n).len() == 2,
        be32(n).len() == 4,
        be64(n).len() == 8,
        big_endian(be16(n)) == n % 0x1_0000,
        big_endian(be32(n)) == n % 0x1_0000_0000,
        big_endian(be64(n)) == n % 0x1_0000_0000_0000_0000,
{
    let hi = n / 0x1_0000_0000;
    lemma_written16(n);
    lemma_written32(n);
    lemma_written32(hi);
    lemma_big8(be64(n));
    assert(be64(n).take(4) =~= be32(hi));
    assert(be64(n).skip(4) =~= be32(n));
}

proof fn lemma_signed_written(n: int)
    ensures
        0 <= n < 0x1_0000 ==> big_endian(be16(signed(n, 16))) == n,
        0 <= n < 0x1_0000_0000 ==> big_endian(be32(signed(n, 32))) == n,
        0 <= n < 0x1_0000_0000_0000_0000 ==> big_endian(be64(signed(n, 64))) == n,
{
    lemma_written(signed(n, 16));
    lemma_written(signed(n, 32));
    lemma_written(signed(n, 64));
}

/// A whole number, and a float, is the same number in the record and in its column, with
/// its bytes turned round: of two bytes for SMALLINT, four for INTEGER and REAL, eight for
/// BIGINT and DOUBLE PRECISION.
pub proof fn law_number_keeps_its_value(rec: Seq<u8>, desc: Desc, width: int)
    requires
        desc.dtype == 8 && width == 2 || (desc.dtype == 9 || desc.dtype == 11) && width == 4 || (
        desc.dtype == 10 || desc.dtype == 12 || desc.dtype == 13 || desc.dtype == 19) && width == 8,
        desc.scale == 0 || 11 <= desc.dtype <= 13,
    ensures
        desc.offset + width <= rec.len() ==> match field_value(rec, desc) {
            Some(v) => {
                &&& v.len() == width
                &&& big_endian(v) == little_endian(
                    rec.subrange(desc.offset as int, desc.offset + width),
                )
            },
            None => false,
        },
        desc.offset + width > rec.len() ==> field_value(rec, desc) is None,
{
    let s = desc.offset as int;
    if s + width <= rec.len() {
        if width == 2 {
            lemma_little2(rec, s);
            lemma_written(signed(le16(rec, s), 16));
            lemma_signed_written(le16(rec, s));
        } else if width == 4 {
            lemma_little4(rec, s);
            lemma_written(le32(rec, s));
            lemma_written(signed(le32(rec, s), 32));
            lemma_signed_written(le32(rec, s));
        } else {
            lemma_little8(rec, s);
            lemma_written(le64(rec, s));
            lemma_written(signed(le64(rec, s), 64));
            lemma_signed_written(le64(rec, s));
        }
    }
}

/// A date counts days, from the seventeenth of November 1858 in the record and from the
/// first of January 2000 in its column.
pub proof fn law_date_counts_days(rec: Seq<u8>, desc: Desc)
    requires
        desc.dtype == 14,
    ensures
        desc.offset + 4 <= rec.len() ==> match field_value(rec, desc) {
            Some(v) => {
                &&& v.len() == 4
                &&& (big_endian(v) + 51_544) % 0x1_0000_0000 == little_endian(
                    rec.subrange(desc.offset as int, desc.offset + 4),
                )
            },
            None => false,
        },
        desc.offset + 4 > rec.len() ==> field_value(rec, desc) is None,
{
    let s = desc.offset as int;
    if s + 4 <= rec.len() {
        lemma_little4(rec, s);
        lemma_written(le32(rec, s) - 51_544);
        lemma_written(le32(rec, s) - 0x1_0000_0000 - 51_544);
    }
}

/// A time counts ten thousandths of a second in the record and millionths in its column.
pub proof fn law_time_counts_microseconds(rec: Seq<u8>, desc: Desc)
    requires
        desc.dtype == 15 || desc.dtype == 25,
    ensures
        desc.offset + 4 <= rec.len() ==> match field_value(rec, desc) {
            Some(v) => {
                &&& v.len() == 8
                &&& big_endian(v) == 100 * little_endian(
                    rec.subrange(desc.offset as int, desc.offset + 4),
                )
            },
            None => false,
        },
        desc.offset + 4 > rec.len() ==> field_value(rec, desc) is None,
{
    let s = desc.offset as int;
    if s + 4 <= rec.len() {
        lemma_little4(rec, s);
        lemma_written(100 * le32(rec, s));
    }
}

/// A timestamp is a date and the time of that day: in its column it is the microseconds of
/// the days since 2000 and of the time.
pub proof fn law_timestamp_is_date_and_time(rec: Seq<u8>, desc: Desc)
    requires
        desc.dtype == 16 || desc.dtype == 26,
    ensures
        desc.offset + 8 <= rec.len() ==> match field_value(rec, desc) {
            Some(v) => {
                let day = with_sign(
                    little_endian(rec.subrange(desc.offset as int, desc.offset + 4)),
                ) - 51_544;
                let time = 100 * little_endian(rec.subrange(desc.offset + 4, desc.offset + 8));
                &&& v.len() == 8
                &&& big_endian(v) == (day * 24 * 60 * 60 * 1_000_000 + time)
                    % 0x1_0000_0000_0000_0000
            },
            None => false,
        },
        desc.offset + 8 > rec.len() ==> field_value(rec, desc) is None,
{
    let s = desc.offset as int;
    if s + 8 <= rec.len() {
        lemma_little4(rec, s);
        lemma_little4(rec, s + 4);
        let day = with_sign(le32(rec, s)) - 51_544;
        lemma_written(86_400_000_000 * day + 100 * le32(rec, s + 4));
    }
}

/// A truth value is one byte: 0 stays 0, and everything else is 1.
pub proof fn law_truth_value(rec: Seq<u8>, desc: Desc)
    requires
        desc.dtype == 21,
    ensures
        match field_value(rec, desc) {
            Some(v) => desc.offset < rec.len() && v.len() == 1 && v[0] <= 1 && (v[0] == 0 <==> rec[
                desc.offset as int] == 0),
            None => desc.offset >= rec.len(),
        },
{
}

// ── Texts ────────────────────────────────────────────────────────────────────

proof fn lemma_blanks(kept: Seq<u8>, pad: Seq<u8>)
    requires
        kept.len() > 0 ==> kept.last() > 0x20,
        forall|i: int| 0 <= i < pad.len() ==> pad[i] <= 0x20,
    ensures
        without_blanks(kept + pad) == kept,
    decreases pad.len(),
{
    if pad.len() == 0 {
        assert(kept + pad =~= kept);
    } else {
        lemma_blanks(kept, pad.drop_last());
        assert((kept + pad).drop_last() =~= kept + pad.drop_last());
    }
}

/// A text of fixed length is its field without the blanks behind it, as UTF-8.
pub proof fn law_fixed_text(rec: Seq<u8>, desc: Desc, kept: Seq<u8>, pad: Seq<u8>)
    requires
        desc.dtype == 1 || desc.dtype == 2,
        desc.length > 0,
        desc.offset + desc.length <= rec.len(),
        rec.subrange(desc.offset as int, desc.offset + desc.length) == kept + pad,
        kept.len() > 0 ==> kept.last() > 0x20,
        forall|i: int| 0 <= i < pad.len() ==> pad[i] <= 0x20,
    ensures
        field_value(rec, desc) == Some(win1252_utf8(kept)),
{
    lemma_blanks(kept, pad);
}

/// A text of varying length is as many bytes as it says, without the blanks behind them, as
/// UTF-8. One of blanks alone keeps them.
pub proof fn law_varying_text(rec: Seq<u8>, desc: Desc, kept: Seq<u8>, pad: Seq<u8>)
    requires
        desc.dtype == 3,
        desc.offset + 2 + kept.len() + pad.len() <= rec.len(),
        little_endian(rec.subrange(desc.offset as int, desc.offset + 2)) == kept.len() + pad.len(),
        rec.subrange(desc.offset + 2, desc.offset + 2 + kept.len() + pad.len()) == kept + pad,
        kept.len() > 0 ==> kept.last() > 0x20,
        forall|i: int| 0 <= i < pad.len() ==> pad[i] <= 0x20,
    ensures
        kept.len() > 0 ==> field_value(rec, desc) == Some(win1252_utf8(kept)),
        kept.len() == 0 ==> field_value(rec, desc) == Some(win1252_utf8(pad)),
{
    lemma_blanks(kept, pad);
    lemma_little2(rec, desc.offset as int);
    if kept.len() == 0 {
        assert(kept + pad =~= pad);
    }
}

/// A field that begins behind the end of its record is NULL, and a text that the record cuts
/// off is what is left of it.
pub proof fn law_cut_off_text(rec: Seq<u8>, desc: Desc)
    requires
        1 <= desc.dtype <= 3,
    ensures
        desc.offset >= rec.len() ==> field_value(rec, desc) is None,
        desc.dtype <= 2 && desc.offset < rec.len() < desc.offset + desc.length ==> field_value(
            rec,
            desc,
        ) == field_value(rec, (Desc { length: (rec.len() - desc.offset) as u16, ..desc })),
{
}

// ── Characters ───────────────────────────────────────────────────────────────

/// The byte that stands for a character in code page 1252.
pub open spec fn win1252_byte(c: char) -> int {
    let n = c as int;
    if n == 0x152 {
        0x8c
    } else if n == 0x153 {
        0x9c
    } else if n == 0x160 {
        0x8a
    } else if n == 0x161 {
        0x9a
    } else if n == 0x178 {
        0x9f
    } else if n == 0x17d {
        0x8e
    } else if n == 0x17e {
        0x9e
    } else if n == 0x192 {
        0x83
    } else if n == 0x2c6 {
        0x88
    } else if n == 0x2dc {
        0x98
    } else if n == 0x2013 {
        0x96
    } else if n == 0x2014 {
        0x97
    } else if n == 0x2018 {
        0x91
    } else if n == 0x2019 {
        0x92
    } else if n == 0x201a {
        0x82
    } else if n == 0x201c {
        0x93
    } else if n == 0x201d {
        0x94
    } else if n == 0x201e {
        0x84
    } else if n == 0x2020 {
        0x86
    } else if n == 0x2021 {
        0x87
    } else if n == 0x2022 {
        0x95
    } else if n == 0x2026 {
        0x85
    } else if n == 0x2030 {
        0x89
    } else if n == 0x2039 {
        0x8b
    } else if n == 0x203a {
        0x9b
    } else if n == 0x20ac {
        0x80
    } else if n == 0x2122 {
        0x99
    } else {
        n
    }
}

/// Every byte but zero becomes one character, at its place, and can be told from it; zero
/// bytes are left out.
pub proof fn law_characters(before: Seq<u8>, b: u8, after: Seq<u8>)
    ensures
        win1252_text(before + after) == win1252_text(before) + win1252_text(after),
        b == 0 ==> win1252_text(before.push(b)) == win1252_text(before),
        b != 0 ==> {
            &&& win1252_text(before.push(b)).len() == win1252_text(before).len() + 1
            &&& win1252_text(before.push(b)).drop_last() == win1252_text(before)
            &&& win1252_byte(win1252_text(before.push(b)).last()) == b
        },
    decreases after.len(),
{
    let t = win1252_text(before);
    assert(before.push(b).drop_last() =~= before);
    if b != 0 {
        assert(win1252_text(before.push(b)) == t.push(win1252_char(b)));
        assert(t.push(win1252_char(b)).drop_last() =~= t);
    }
    if after.len() == 0 {
        assert(before + after =~= before);
        assert(t + win1252_text(after) =~= t);
    } else {
        law_characters(before, b, after.drop_last());
        assert((before + after).drop_last() =~= before + after.drop_last());
        assert(win1252_text(before + after) =~= t + win1252_text(after));
    }
}

// ── The columns of a format ──────────────────────────────────────────────────

/// The columns of a table in a format, for a whole load and for changes: each reads the flag
/// and the field of its own number, in the order of the columns.
pub proof fn law_columns_read_their_own_fields(
    fields: &[(usize, String)],
    descs: &[Desc],
    load: Vec<CopySlot>,
    changes: Vec<SlotInfo>,
    rec: Seq<u8>,
    i: int,
)
    requires
        call_ensures(slots_for_format, (fields, descs), load),
        call_ensures(build_slots, (fields, descs), changes),
        0 <= i < fields@.len(),
    ensures
        load@.len() == fields@.len(),
        changes@.len() == fields@.len(),
        fields@[i].0 >= descs@.len() ==> slot_value(rec, load@[i]) is None && slot_value(
            rec,
            changes@[i].column(),
        ) is None,
        fields@[i].0 < descs@.len() && fields@[i].0 / 8 >= rec.len() ==> slot_value(
            rec,
            load@[i],
        ) is None && slot_value(rec, changes@[i].column()) is None,
        fields@[i].0 < descs@.len() && fields@[i].0 / 8 < rec.len() ==> slot_value(rec, load@[i])
            == (if flag_set(rec, fields@[i].0 as int) {
            None
        } else {
            field_value(rec, descs@[fields@[i].0 as int])
        }) && slot_value(rec, changes@[i].column()) == slot_value(rec, load@[i]),
{
    let fids = field_ids(fields@);
    let cols = fields@.map_values(|c: (usize, String)| (c.0, c.1@));
    assert(fids.len() == fields@.len());
    assert(fids[i] == fields@[i].0);
    assert(cols[i].0 == fids[i]);
    assert(load@[i] == copy_slot(fids[i], descs@));
    assert(changes@[i] == slot_info(fids[i], descs@));
    assert(column_infos(cols, descs@)[i] == changes@[i]);
    assert(copy_slots_of(fids, descs@)[i] == load@[i]);
    if fids[i] < descs@.len() {
        if fids[i] / 8 < rec.len() {
            law_null_flag(fids, cols, descs@, rec, i);
        } else {
            law_short_record_is_null(fids, cols, descs@, rec, i);
        }
    }
}

} // verus!
