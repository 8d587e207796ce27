//! Windows-1252 text.
use crate::bytes::append;
use vstd::prelude::*;
use vstd::slice::slice_subrange;
use vstd::utf8::{encode_scalar, encode_utf8, encode_utf8_valid_utf8, valid_utf8};

verus! {

/// The code point of a byte from 0x80 to 0x9f. The five undefined ones stand for
/// themselves.
pub open spec fn win1252_high(b: u8) -> u32 {
    if b == 0x80 {
        0x20ac
    } else if b == 0x82 {
        0x201a
    } else if b == 0x83 {
        0x0192
    } else if b == 0x84 {
        0x201e
    } else if b == 0x85 {
        0x2026
    } else if b == 0x86 {
        0x2020
    } else if b == 0x87 {
        0x2021
    } else if b == 0x88 {
        0x02c6
    } else if b == 0x89 {
        0x2030
    } else if b == 0x8a {
        0x0160
    } else if b == 0x8b {
        0x2039
    } else if b == 0x8c {
        0x0152
    } else if b == 0x8e {
        0x017d
    } else if b == 0x91 {
        0x2018
    } else if b == 0x92 {
        0x2019
    } else if b == 0x93 {
        0x201c
    } else if b == 0x94 {
        0x201d
    } else if b == 0x95 {
        0x2022
    } else if b == 0x96 {
        0x2013
    } else if b == 0x97 {
        0x2014
    } else if b == 0x98 {
        0x02dc
    } else if b == 0x99 {
        0x2122
    } else if b == 0x9a {
        0x0161
    } else if b == 0x9b {
        0x203a
    } else if b == 0x9c {
        0x0153
    } else if b == 0x9e {
        0x017e
    } else if b == 0x9f {
        0x0178
    } else {
        b as u32
    }
}

/// The character of a byte.
pub open spec fn win1252_char(b: u8) -> char {
    if 0x80 <= b < 0xa0 {
        win1252_high(b) as char
    } else {
        b as char
    }
}

/// The text of a byte string. Zeros are dropped: PostgreSQL text cannot hold them.
pub open spec fn win1252_text(s: Seq<u8>) -> Seq<char>
    decreases s.len(),
{
    if s.len() == 0 {
        Seq::empty()
    } else if s.last() == 0 {
        win1252_text(s.drop_last())
    } else {
        win1252_text(s.drop_last()).push(win1252_char(s.last()))
    }
}

/// The text of a byte string in UTF-8.
pub open spec fn win1252_utf8(s: Seq<u8>) -> Seq<u8> {
    encode_utf8(win1252_text(s))
}

fn code_point(b: u8) -> (r: u32)
    requires
        b >= 0x80,
    ensures
        r == win1252_char(b) as u32,
        0x80 <= r < 0xd800,
{
    if b >= 0xa0 {
        return b as u32;
    }
    match b {
        0x80 => 0x20ac,
        0x82 => 0x201a,
        0x83 => 0x0192,
        0x84 => 0x201e,
        0x85 => 0x2026,
        0x86 => 0x2020,
        0x87 => 0x2021,
        0x88 => 0x02c6,
        0x89 => 0x2030,
        0x8a => 0x0160,
        0x8b => 0x2039,
        0x8c => 0x0152,
        0x8e => 0x017d,
        0x91 => 0x2018,
        0x92 => 0x2019,
        0x93 => 0x201c,
        0x94 => 0x201d,
        0x95 => 0x2022,
        0x96 => 0x2013,
        0x97 => 0x2014,
        0x98 => 0x02dc,
        0x99 => 0x2122,
        0x9a => 0x0161,
        0x9b => 0x203a,
        0x9c => 0x0153,
        0x9e => 0x017e,
        0x9f => 0x0178,
        _ => b as u32,
    }
}

/// Encoding goes character by character.
pub proof fn lemma_encode_push(s: Seq<char>, c: char)
    ensures
        encode_utf8(s.push(c)) == encode_utf8(s) + encode_scalar(c as u32),
    decreases s.len(),
{
    if s.len() == 0 {
        assert(s.push(c).drop_first() =~= s);
        assert(encode_utf8(s) =~= Seq::<u8>::empty());
        assert(encode_utf8(s.push(c)) =~= encode_scalar(c as u32));
    } else {
        lemma_encode_push(s.drop_first(), c);
        assert(s.push(c).drop_first() =~= s.drop_first().push(c));
        assert(encode_utf8(s.push(c)) =~= encode_utf8(s) + encode_scalar(c as u32));
    }
}

proof fn lemma_next_byte(s: Seq<u8>, i: int)
    requires
        0 <= i < s.len(),
    ensures
        win1252_utf8(s.take(i + 1)) == if s[i] == 0 {
            win1252_utf8(s.take(i))
        } else {
            win1252_utf8(s.take(i)) + encode_scalar(win1252_char(s[i]) as u32)
        },
{
    assert(s.take(i + 1).drop_last() =~= s.take(i));
    lemma_encode_push(win1252_text(s.take(i)), win1252_char(s[i]));
}

proof fn lemma_ascii(b: u8)
    requires
        0 < b < 0x80,
    ensures
        encode_scalar(win1252_char(b) as u32) == seq![b],
{
    let c: u32 = b as u32;
    assert((c & 0x7f) as u8 == b) by (bit_vector)
        requires
            c == b as u32,
            b < 0x80,
    ;
}

/// Converts Windows-1252 text to UTF-8 into `out`, whose former contents are dropped.
pub fn win1252_to_utf8(bytes: &[u8], out: &mut Vec<u8>)
    ensures
        final(out)@ == win1252_utf8(bytes@),
{
    out.clear();
    // What needs no conversion is copied as a block.
    let mut split: usize = 0;
    proof {
        assert(bytes@.take(0) =~= Seq::empty());
        assert(win1252_utf8(bytes@.take(0)) =~= bytes@.take(0));
    }
    while split < bytes.len() && bytes[split] < 0x80 && bytes[split] != 0
        invariant
            split <= bytes@.len(),
            win1252_utf8(bytes@.take(split as int)) == bytes@.take(split as int),
        decreases bytes@.len() - split,
    {
        proof {
            lemma_next_byte(bytes@, split as int);
            lemma_ascii(bytes@[split as int]);
            assert(bytes@.take(split + 1) =~= bytes@.take(split as int) + seq![
                bytes@[split as int],
            ]);
        }
        split = split + 1;
    }
    append(out, slice_subrange(bytes, 0, split));
    assert(out@ =~= bytes@.take(split as int));
    let mut i: usize = split;
    while i < bytes.len()
        invariant
            i <= bytes@.len(),
            out@ == win1252_utf8(bytes@.take(i as int)),
        decreases bytes@.len() - i,
    {
        let b: u8 = bytes[i];
        let ghost before = out@;
        proof {
            lemma_next_byte(bytes@, i as int);
        }
        if b >= 0x80 {
            let cp: u32 = code_point(b);
            if cp < 0x800 {
                let lead: u8 = 0xc0 | ((cp >> 6) & 0x1f) as u8;
                let last: u8 = 0x80 | (cp & 0x3f) as u8;
                out.push(lead);
                out.push(last);
            } else {
                let lead: u8 = 0xe0 | ((cp >> 12) & 0x0f) as u8;
                let mid: u8 = 0x80 | ((cp >> 6) & 0x3f) as u8;
                let last: u8 = 0x80 | (cp & 0x3f) as u8;
                out.push(lead);
                out.push(mid);
                out.push(last);
            }
            assert(out@ =~= before + encode_scalar(cp));
        } else if b != 0 {
            proof {
                lemma_ascii(b);
            }
            out.push(b);
            assert(out@ =~= before + seq![b]);
        }
        i = i + 1;
    }
    assert(bytes@.take(i as int) =~= bytes@);
}

/// The conversion gives well-formed UTF-8 without a zero byte's character.
pub proof fn lemma_win1252_valid(s: Seq<u8>)
    ensures
        valid_utf8(win1252_utf8(s)),
        !win1252_text(s).contains('\0'),
    decreases s.len(),
{
    encode_utf8_valid_utf8(win1252_text(s));
    if s.len() > 0 {
        lemma_win1252_valid(s.drop_last());
        let t = win1252_text(s.drop_last());
        if s.last() != 0 {
            let c = win1252_char(s.last());
            assert forall|i: int| 0 <= i < t.push(c).len() implies t.push(c)[i] != '\0' by {
                if i < t.len() {
                    assert(t.contains(t[i]));
                }
            }
        }
    }
}

/// A byte string never grows to more than three times its length.
pub proof fn lemma_win1252_len(s: Seq<u8>)
    ensures
        win1252_utf8(s).len() <= 3 * s.len(),
    decreases s.len(),
{
    if s.len() > 0 {
        let i = s.len() - 1;
        lemma_next_byte(s, i);
        assert(s.take(i + 1) =~= s);
        assert(s.take(i) =~= s.drop_last());
        lemma_win1252_len(s.drop_last());
    } else {
        assert(win1252_utf8(s) =~= Seq::empty());
    }
}

} // verus!
