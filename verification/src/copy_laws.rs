//! What a reader of PostgreSQL's binary COPY format finds in what is written for it.
use crate::bytes::{be16, be32, byte_of};
use crate::extract::{
    columns_bytes, concat, copy_header, copy_stream, field_value, framed, row_bytes, slot_ok,
    slot_value, without_blanks, CopySlot,
};
use crate::win1252::lemma_win1252_len;
use vstd::prelude::*;

verus! {

// ── A reader of the format ───────────────────────────────────────────────────

/// The values of `n` fields from `i` on, and where they end. A field is four bytes of
/// length, most significant first, and that many bytes; with all bits of the length set it
/// is NULL.
pub open spec fn read_fields(s: Seq<u8>, i: int, n: nat) -> Option<
    (Seq<Option<Seq<u8>>>, int),
>
    decreases n,
{
    if n == 0 {
        Some((Seq::empty(), i))
    } else {
        match read_fields(s, i, (n - 1) as nat) {
            None => None,
            Some((before, j)) => {
                let len = 0x100_0000 * s[j] + 0x1_0000 * s[j + 1] + 0x100 * s[j + 2] + s[j + 3];
                if j + 4 > s.len() {
                    None
                } else if len == 0xffff_ffff {
                    Some((before.push(None), j + 4))
                } else if len > 0x7fff_ffff || j + 4 + len > s.len() {
                    None
                } else {
                    Some((before.push(Some(s.subrange(j + 4, j + 4 + len))), j + 4 + len))
                }
            },
        }
    }
}

/// The values of a row: two bytes of count, and so many fields with nothing behind them.
pub open spec fn read_row(s: Seq<u8>) -> Option<Seq<Option<Seq<u8>>>> {
    let count = 0x100 * s[0] + s[1];
    if s.len() < 2 || count > 0x7fff {
        None
    } else {
        match read_fields(s, 2, count as nat) {
            Some((values, end)) => if end == s.len() {
                Some(values)
            } else {
                None
            },
            None => None,
        }
    }
}

/// The rows from `i` on, up to a count of -1 that ends the stream.
pub open spec fn read_rows(s: Seq<u8>, i: int) -> Option<Seq<Seq<Option<Seq<u8>>>>>
    decreases s.len() - i,
{
    let count = 0x100 * s[i] + s[i + 1];
    if i + 2 > s.len() {
        None
    } else if count == 0xffff {
        if i + 2 == s.len() {
            Some(Seq::empty())
        } else {
            None
        }
    } else if count > 0x7fff {
        None
    } else {
        match read_fields(s, i + 2, count as nat) {
            None => None,
            Some((values, end)) => if end <= i {
                None
            } else {
                match read_rows(s, end) {
                    Some(rest) => Some(seq![values] + rest),
                    None => None,
                }
            },
        }
    }
}

/// The rows of a whole stream: the signature, no flags and no header extension, the rows.
pub open spec fn read_stream(s: Seq<u8>) -> Option<Seq<Seq<Option<Seq<u8>>>>> {
    if s.len() < 19 || s.take(11) != seq![
        80u8,
        71u8,
        67u8,
        79u8,
        80u8,
        89u8,
        10u8,
        255u8,
        13u8,
        10u8,
        0u8,
    ] || s.subrange(11, 19) != seq![0u8, 0u8, 0u8, 0u8, 0u8, 0u8, 0u8, 0u8] {
        None
    } else {
        read_rows(s, 19)
    }
}

/// The values of the columns of a record.
pub open spec fn column_values(rec: Seq<u8>, slots: Seq<CopySlot>) -> Seq<Option<Seq<u8>>> {
    Seq::new(slots.len(), |i: int| slot_value(rec, slots[i]))
}

/// Whether a value is short enough for a length of 31 bits.
pub open spec fn fits_field(v: Option<Seq<u8>>) -> bool {
    match v {
        Some(b) => b.len() <= 0x7fff_ffff,
        None => true,
    }
}

// ── Rows ─────────────────────────────────────────────────────────────────────

/// What the two bytes of a written count are read as.
pub proof fn lemma_count_is_read(n: int)
    requires
        0 <= n <= 0x7fff,
    ensures
        be16(n).len() == 2,
        0x100 * be16(n)[0] + be16(n)[1] == n,
        be16(-1) == seq![255u8, 255u8],
{
    reveal(byte_of);
    assert(be16(-1) =~= seq![255u8, 255u8]);
}

/// What four bytes of a written length are read as.
proof fn lemma_length_is_read(m: int)
    requires
        0 <= m <= 0x7fff_ffff,
    ensures
        be32(m).len() == 4,
        0x100_0000 * be32(m)[0] + 0x1_0000 * be32(m)[1] + 0x100 * be32(m)[2] + be32(m)[3] == m,
        be32(-1) == seq![255u8, 255u8, 255u8, 255u8],
{
    reveal(byte_of);
    assert(be32(-1) =~= seq![255u8, 255u8, 255u8, 255u8]);
}

/// A frame that stands at `j` is read as its value.
proof fn lemma_frame_is_read(v: Option<Seq<u8>>, s: Seq<u8>, j: int)
    requires
        fits_field(v),
        0 <= j,
        j + framed(v).len() <= s.len(),
        s.subrange(j, j + framed(v).len()) == framed(v),
    ensures
        framed(v).len() >= 4,
        ({
            let len = 0x100_0000 * s[j] + 0x1_0000 * s[j + 1] + 0x100 * s[j + 2] + s[j + 3];
            match v {
                None => len == 0xffff_ffff && framed(v).len() == 4,
                Some(b) => len == b.len() && s.subrange(j + 4, j + 4 + len) == b && framed(v).len()
                    == 4 + len,
            }
        }),
{
    let f = framed(v);
    let w = s.subrange(j, j + f.len());
    match v {
        None => {
            lemma_length_is_read(0);
        },
        Some(b) => {
            let m = b.len() as int;
            lemma_length_is_read(m);
            assert(f[0] == be32(m)[0] && f[1] == be32(m)[1] && f[2] == be32(m)[2] && f[3] == be32(
                m,
            )[3]);
            assert(s.subrange(j + 4, j + 4 + m) =~= b) by {
                assert forall|k: int| 0 <= k < m implies s[j + 4 + k] == #[trigger] b[k] by {
                    assert(w[4 + k] == f[4 + k]);
                }
            }
        },
    }
    assert(w[0] == s[j] && w[1] == s[j + 1] && w[2] == s[j + 2] && w[3] == s[j + 3]);
}

pub proof fn lemma_read_columns(rec: Seq<u8>, slots: Seq<CopySlot>, n: nat, s: Seq<u8>, i: int)
    requires
        n <= slots.len(),
        forall|k: int| 0 <= k < n ==> fits_field(slot_value(rec, #[trigger] slots[k])),
        0 <= i,
        i + columns_bytes(rec, slots, n as int).len() <= s.len(),
        s.subrange(i, i + columns_bytes(rec, slots, n as int).len()) == columns_bytes(
            rec,
            slots,
            n as int,
        ),
    ensures
        read_fields(s, i, n) == Some(
            (
                column_values(rec, slots).take(n as int),
                i + columns_bytes(rec, slots, n as int).len(),
            ),
        ),
    decreases n,
{
    let vals = column_values(rec, slots);
    let all = columns_bytes(rec, slots, n as int);
    if n == 0 {
        assert(vals.take(0) =~= Seq::empty());
    } else {
        let front = columns_bytes(rec, slots, n - 1);
        let v = slot_value(rec, slots[n - 1]);
        let last = framed(v);
        assert(all == front + last);
        assert(s.subrange(i, i + front.len()) =~= all.take(front.len() as int));
        assert(all.take(front.len() as int) =~= front);
        lemma_read_columns(rec, slots, (n - 1) as nat, s, i);
        let j = i + front.len();
        assert(s.subrange(j, j + last.len()) =~= last) by {
            let w = s.subrange(i, i + all.len());
            assert forall|k: int| 0 <= k < last.len() implies s[j + k] == #[trigger] last[k] by {
                assert(w[front.len() + k] == last[k]);
            }
        }
        assert(fits_field(slot_value(rec, slots[n - 1])));
        lemma_frame_is_read(v, s, j);
        assert(vals.take(n as int) =~= vals.take(n - 1).push(v));
    }
}

/// A row says how many fields it has, has exactly that many, and they are the values of the
/// columns in their order.
pub proof fn law_row_is_read(rec: Seq<u8>, slots: Seq<CopySlot>, n_fields: i16)
    requires
        n_fields == slots.len(),
        forall|k: int| 0 <= k < slots.len() ==> fits_field(slot_value(rec, #[trigger] slots[k])),
    ensures
        read_row(row_bytes(rec, slots, n_fields)) == Some(column_values(rec, slots)),
{
    let row = row_bytes(rec, slots, n_fields);
    let cols = columns_bytes(rec, slots, slots.len() as int);
    lemma_count_is_read(n_fields as int);
    assert(row[0] == be16(n_fields as int)[0] && row[1] == be16(n_fields as int)[1]);
    assert(0x100 * row[0] + row[1] == n_fields);
    assert(row.subrange(2, row.len() as int) =~= cols);
    lemma_read_columns(rec, slots, slots.len(), row, 2);
    assert(column_values(rec, slots).take(slots.len() as int) =~= column_values(rec, slots));
}

/// A value of a record of less than half a gigabyte fits a field.
pub proof fn lemma_value_fits(rec: Seq<u8>, slot: CopySlot)
    requires
        rec.len() <= 0x2000_0000,
        slot_ok(rec, slot),
    ensures
        fits_field(slot_value(rec, slot)),
{
    let s = slot.desc.offset as int;
    let v = field_value(rec, slot.desc);
    if v is Some {
        let t = slot.desc.dtype;
        if t == 1 || t == 2 {
            let end = if s + slot.desc.length <= rec.len() {
                s + slot.desc.length
            } else {
                rec.len() as int
            };
            lemma_blanks_len(rec.subrange(s, end));
            lemma_win1252_len(without_blanks(rec.subrange(s, end)));
        } else if t == 3 {
            let len = crate::bytes::le16(rec, s);
            let end = if s + 2 + len <= rec.len() {
                s + 2 + len
            } else {
                rec.len() as int
            };
            lemma_blanks_len(rec.subrange(s + 2, end));
            lemma_win1252_len(without_blanks(rec.subrange(s + 2, end)));
            lemma_win1252_len(rec.subrange(s + 2, end));
        }
    }
}

proof fn lemma_blanks_len(s: Seq<u8>)
    ensures
        without_blanks(s).len() <= s.len(),
    decreases s.len(),
{
    if s.len() > 0 {
        lemma_blanks_len(s.drop_last());
    }
}

// ── Streams ──────────────────────────────────────────────────────────────────

/// Fields stand where their row stands.
pub proof fn lemma_read_shifted(row: Seq<u8>, a: int, n: nat, s: Seq<u8>, i: int)
    requires
        0 <= a <= row.len(),
        0 <= i,
        i + row.len() <= s.len(),
        s.subrange(i, i + row.len()) == row,
        read_fields(row, a, n) is Some,
    ensures
        match read_fields(row, a, n) {
            Some((values, end)) => {
                &&& a <= end <= row.len()
                &&& read_fields(s, i + a, n) == Some((values, i + end))
            },
            None => false,
        },
    decreases n,
{
    if n > 0 {
        lemma_read_shifted(row, a, (n - 1) as nat, s, i);
        let (_, j) = read_fields(row, a, (n - 1) as nat).unwrap();
        let w = s.subrange(i, i + row.len());
        assert(w[j] == s[i + j] && w[j + 1] == s[i + j + 1] && w[j + 2] == s[i + j + 2] && w[j + 3]
            == s[i + j + 3]);
        let len = 0x100_0000 * row[j] + 0x1_0000 * row[j + 1] + 0x100 * row[j + 2] + row[j + 3];
        if len <= 0x7fff_ffff {
            assert(row.subrange(j + 4, j + 4 + len) =~= s.subrange(i + j + 4, i + j + 4 + len)) by {
                assert forall|k: int| j + 4 <= k < j + 4 + len implies #[trigger] row[k] == s[i
                    + k] by {
                    assert(w[k] == s[i + k]);
                }
            }
        }
    }
}

proof fn lemma_concat_front(rows: Seq<Seq<u8>>)
    requires
        rows.len() > 0,
    ensures
        concat(rows) == rows[0] + concat(rows.skip(1)),
    decreases rows.len(),
{
    if rows.len() == 1 {
        assert(rows.drop_last() =~= Seq::empty());
        assert(rows.skip(1) =~= Seq::empty());
        assert(concat(rows) =~= rows[0] + concat(rows.skip(1)));
    } else {
        lemma_concat_front(rows.drop_last());
        assert(rows.drop_last().skip(1) =~= rows.skip(1).drop_last());
        assert(concat(rows) =~= rows[0] + concat(rows.skip(1)));
    }
}

/// One behind the other, two lists are the pieces of both.
pub proof fn lemma_concat_join(a: Seq<Seq<u8>>, b: Seq<Seq<u8>>)
    ensures
        concat(a + b) == concat(a) + concat(b),
    decreases b.len(),
{
    if b.len() == 0 {
        assert(a + b =~= a);
        assert(concat(a) + concat(b) =~= concat(a));
    } else {
        lemma_concat_join(a, b.drop_last());
        assert((a + b).drop_last() =~= a + b.drop_last());
        assert(concat(a + b) =~= concat(a) + concat(b));
    }
}

proof fn lemma_read_rows(
    rows: Seq<Seq<u8>>,
    values: Seq<Seq<Option<Seq<u8>>>>,
    s: Seq<u8>,
    i: int,
)
    requires
        rows.len() == values.len(),
        forall|k: int| 0 <= k < rows.len() ==> read_row(#[trigger] rows[k]) == Some(values[k]),
        0 <= i <= s.len(),
        s.skip(i) == concat(rows) + seq![255u8, 255u8],
    ensures
        read_rows(s, i) == Some(values),
    decreases rows.len(),
{
    let rest = s.skip(i);
    assert(rest.len() == concat(rows).len() + 2);
    assert(rest[0] == s[i] && rest[1] == s[i + 1]);
    if rows.len() == 0 {
        assert(rest =~= seq![255u8, 255u8]);
        assert(values =~= Seq::empty());
    } else {
        let row = rows[0];
        lemma_concat_front(rows);
        assert(read_row(rows[0]) == Some(values[0]));
        let count = 0x100 * row[0] + row[1];
        assert(row[0] == rest[0] && row[1] == rest[1]);
        assert(s.subrange(i, i + row.len()) =~= row) by {
            assert forall|k: int| 0 <= k < row.len() implies s[i + k] == #[trigger] row[k] by {
                assert(rest[k] == s[i + k]);
            }
        }
        lemma_read_shifted(row, 2, count as nat, s, i);
        let j = i + row.len();
        let more = rows.skip(1);
        assert(s.skip(j) =~= concat(more) + seq![255u8, 255u8]) by {
            assert forall|k: int| 0 <= k < s.len() - j implies #[trigger] s.skip(j)[k] == (concat(
                more,
            ) + seq![255u8, 255u8])[k] by {
                assert(rest[row.len() + k] == s[j + k]);
            }
        }
        assert forall|k: int| 0 <= k < more.len() implies read_row(#[trigger] more[k]) == Some(
            values.skip(1)[k],
        ) by {
            assert(more[k] == rows[k + 1]);
        }
        lemma_read_rows(more, values.skip(1), s, j);
        assert(seq![values[0]] + values.skip(1) =~= values);
    }
}

/// A stream is read back as its rows, all of them and in their order.
pub proof fn law_stream_is_read(rows: Seq<Seq<u8>>, values: Seq<Seq<Option<Seq<u8>>>>)
    requires
        rows.len() == values.len(),
        forall|k: int| 0 <= k < rows.len() ==> read_row(#[trigger] rows[k]) == Some(values[k]),
    ensures
        read_stream(copy_stream(rows)) == Some(values),
{
    let s = copy_stream(rows);
    lemma_count_is_read(0);
    reveal(copy_header);
    assert(s.take(11) =~= seq![80u8, 71u8, 67u8, 79u8, 80u8, 89u8, 10u8, 255u8, 13u8, 10u8, 0u8]);
    assert(s.subrange(11, 19) =~= seq![0u8, 0u8, 0u8, 0u8, 0u8, 0u8, 0u8, 0u8]);
    assert(s.skip(19) =~= concat(rows) + seq![255u8, 255u8]);
    lemma_read_rows(rows, values, s, 19);
}

} // verus!
