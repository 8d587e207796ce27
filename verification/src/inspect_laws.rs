//! What an inspection shows of a table.
use crate::inspect::{
    data_pages_in, hex4, hex_digit, padded_left, page_line, page_shows, relation_line, slot_line,
    slot_report, Inspection, PageReport, SlotReport,
};
use crate::ods::{slot, transaction, Image};
use crate::record_laws::lemma_flags;
use crate::text::{decimal, padded};
use crate::value_laws::{lemma_little2, lemma_little4, little_endian};
use vstd::prelude::*;

verus! {

/// A slot is shown as a record where one stands there that has a whole header, with what its
/// header says.
pub proof fn law_slot_is_shown_as_it_is(p: Seq<u8>, s: int)
    requires
        0 <= s,
        24 + 4 * s + 4 <= p.len() <= 65_535,
    ensures
        match (slot(p, s), slot_report(p, s)) {
            (Some(raw), SlotReport::Record { txn, flags, fmt, b_page, b_line, len }) => {
                &&& raw.len() >= 13
                &&& len == raw.len()
                &&& flags == little_endian(raw.subrange(10, 12))
                &&& fmt == raw[12]
                &&& b_page == little_endian(raw.subrange(4, 8))
                &&& b_line == little_endian(raw.subrange(8, 10))
                &&& transaction(raw) is Some ==> transaction(raw) == Some(txn)
            },
            (Some(raw), SlotReport::Short { len }) => raw.len() < 13 && len == raw.len(),
            (Some(_), _) => false,
            (None, SlotReport::Empty) => little_endian(p.subrange(24 + 4 * s, 26 + 4 * s)) == 0
                || little_endian(p.subrange(26 + 4 * s, 28 + 4 * s)) == 0,
            (None, SlotReport::OutOfBounds { off, len }) => {
                &&& off == little_endian(p.subrange(24 + 4 * s, 26 + 4 * s))
                &&& len == little_endian(p.subrange(26 + 4 * s, 28 + 4 * s))
                &&& off > 0 && len > 0 && off + len > p.len()
            },
            (None, _) => false,
        },
{
    lemma_little2(p, 24 + 4 * s);
    lemma_little2(p, 26 + 4 * s);
    if slot(p, s) is Some {
        let raw = slot(p, s)->0;
        if raw.len() >= 13 {
            lemma_flags(raw);
            lemma_little4(raw, 4);
            lemma_little2(raw, 8);
            lemma_little2(raw, 10);
        }
    }
}

/// The pages that are shown are the data pages of the table, in their order.
pub proof fn law_data_pages_are_shown(img: Image, ps: Seq<u32>)
    ensures
        data_pages_in(img, ps) == ps.filter(|n: u32| img.page(n as int)[0] == 5),
    decreases ps.len(),
{
    reveal(Seq::filter);
    if ps.len() > 0 {
        law_data_pages_are_shown(img, ps.drop_last());
    } else {
        assert(data_pages_in(img, ps) =~= ps.filter(|n: u32| img.page(n as int)[0] == 5));
    }
}

/// A page is shown with its number, its generation and all of its slots.
pub proof fn law_page_is_shown_whole(img: Image, n: u32, r: PageReport)
    requires
        img.wf(),
        img.has_page(n as int),
        page_shows(img, n, r),
    ensures
        r.page == n,
        r.gen == little_endian(img.page(n as int).subrange(4, 8)),
        r.slots@.len() == little_endian(img.page(n as int).subrange(22, 24)),
        forall|s: int|
            0 <= s < r.slots@.len() ==> #[trigger] r.slots@[s] == slot_report(
                img.page(n as int),
                s,
            ),
{
    assert(n as int * img.page_size >= 0) by (nonlinear_arith)
        requires
            0 <= n as int,
            1024 <= img.page_size,
    ;
    assert(img.page(n as int).len() == img.page_size);
    lemma_little4(img.page(n as int), 4);
    lemma_little2(img.page(n as int), 22);
}

// ── Lines ────────────────────────────────────────────────────────────────────

/// The value of a hexadecimal digit in small letters.
pub open spec fn hex_value(c: char) -> int {
    if '0' <= c <= '9' {
        c as int - '0' as int
    } else if 'a' <= c <= 'f' {
        c as int - 'a' as int + 10
    } else {
        -1
    }
}

/// Flags are shown as four hexadecimal digits.
pub proof fn law_hex(n: int)
    requires
        0 <= n <= 0xffff,
    ensures
        hex4(n).len() == 4,
        forall|i: int| 0 <= i < 4 ==> 0 <= hex_value(#[trigger] hex4(n)[i]) <= 15,
        0x1000 * hex_value(hex4(n)[0]) + 0x100 * hex_value(hex4(n)[1]) + 0x10 * hex_value(hex4(n)[2])
            + hex_value(hex4(n)[3]) == n,
{
    lemma_hex_digit(n / 0x1000);
    lemma_hex_digit(n / 0x100 % 16);
    lemma_hex_digit(n / 16 % 16);
    lemma_hex_digit(n % 16);
    assert(n == 0x1000 * (n / 0x1000) + 0x100 * (n / 0x100 % 16) + 0x10 * (n / 16 % 16) + n % 16);
}

proof fn lemma_hex_digit(d: int)
    requires
        0 <= d < 16,
    ensures
        hex_value(hex_digit(d)) == d,
{
}

/// Numbers of slots are filled up with blanks on the left.
pub proof fn law_padded_left(s: Seq<char>, width: int)
    ensures
        s.len() >= width ==> padded_left(s, width) == s,
        s.len() < width ==> padded_left(s, width).len() == width,
        padded_left(s, width).len() >= s.len(),
        padded_left(s, width).skip(padded_left(s, width).len() - s.len()) == s,
        forall|i: int|
            0 <= i < padded_left(s, width).len() - s.len() ==> padded_left(s, width)[i] == ' ',
    decreases width - s.len(),
{
    let r = padded_left(s, width);
    if s.len() < width {
        let t = seq![' '] + s;
        law_padded_left(t, width);
        let k = r.len() - s.len();
        assert(r.skip(k) =~= s) by {
            assert forall|i: int| 0 <= i < s.len() implies r[k + i] == s[i] by {
                assert(r.skip(k - 1)[i + 1] == t[i + 1]);
            }
        }
        assert(r[k - 1] == ' ') by {
            assert(r.skip(k - 1)[0] == t[0]);
        }
    } else {
        assert(s.skip(0) =~= s);
    }
}

/// The line of a record shows its numbers by name, and of its flags the words of those that
/// are set.
pub proof fn law_record_line(
    s: nat,
    txn: u64,
    flags: u16,
    fmt: u8,
    b_page: u32,
    b_line: u16,
    len: u16,
)
    ensures
        ({
            let word = |bit: u16, text: Seq<char>|
                if flags & bit != 0 {
                    text
                } else {
                    "    "@
                };
            slot_line(s, SlotReport::Record { txn, flags, fmt, b_page, b_line, len }) == "  slot "@
                + padded_left(decimal(s), 4) + ": "@ + "txn="@ + padded(decimal(txn as nat), 10)
                + " flags=0x"@ + hex4(flags as int) + " "@ + word(1, "DEL "@) + word(2, "CHN "@)
                + word(4, "FRG "@) + word(8, "INC "@) + word(1024, "LNG "@) + word(2048, "NPK "@)
                + " fmt="@ + padded(decimal(fmt as nat), 3) + " b_page="@ + padded(
                decimal(b_page as nat),
                8,
            ) + " b_line="@ + padded(decimal(b_line as nat), 4) + " raw_len="@ + decimal(len as nat)
        }),
{
}

/// The lines of a table and of a page show their numbers by name.
pub proof fn law_head_lines(table: Seq<char>, r: Inspection, p: PageReport)
    ensures
        r.first_pp is Some ==> relation_line(table, r) == "relation="@ + table + " rid="@ + decimal(
            r.relation_id as nat,
        ) + " first_pp="@ + decimal(r.first_pp->0 as nat) + " data_pages="@ + decimal(
            r.n_pages as nat,
        ),
        r.first_pp is None ==> relation_line(table, r) == "No pointer page for "@ + table
            + " (relation_id="@ + decimal(r.relation_id as nat) + ")"@,
        page_line(p) == "─── page "@ + decimal(p.page as nat) + " pag_gen="@ + decimal(
            p.gen as nat,
        ) + " slots="@ + decimal(p.slots@.len()) + " ───"@,
{
}

} // verus!
