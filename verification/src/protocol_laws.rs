//! What goes over the wire, and into the file of keys, byte by byte.
use crate::bytes::{be32, le32_bytes, le64_bytes};
use crate::extract::concat;
use crate::snapshot::{
    page_piece, page_pieces, parse_snapshot, snapshot_bytes, table_piece, table_pieces, Saved,
};
use crate::value_laws::{big_endian, lemma_little4, lemma_little8, lemma_written, little_endian};
use crate::wire::{
    exact, frame, prefixed_bytes, request_at, request_bytes, response_at, response_bytes, Op,
    WireError, MAGIC,
};
use vstd::prelude::*;
use vstd::utf8::encode_utf8;

verus! {

// ── Requests and replies ─────────────────────────────────────────────────────

proof fn lemma_prefixed_layout(b: Seq<u8>)
    requires
        b.len() < 0x1_0000_0000,
    ensures
        prefixed_bytes(b).len() == 4 + b.len(),
        big_endian(prefixed_bytes(b).take(4)) == b.len(),
        prefixed_bytes(b).skip(4) == b,
{
    lemma_written(b.len() as int);
    assert(prefixed_bytes(b).take(4) =~= be32(b.len() as int));
    assert(prefixed_bytes(b).skip(4) =~= b);
}

/// A request begins with the letters FDBI, the version 1 and the operation, 1 for a load and 2
/// for changes; behind them stand the length of the header in four bytes and the header.
pub proof fn law_request_layout(op: Op, header: Seq<u8>)
    requires
        header.len() < 0x1_0000_0000,
    ensures
        ({
            let s = request_bytes(op, header);
            &&& s.len() == 10 + header.len()
            &&& s[0] == 'F' as u8 && s[1] == 'D' as u8 && s[2] == 'B' as u8 && s[3] == 'I' as u8
            &&& s[4] == 1
            &&& s[5] == match op {
                Op::Full => 1u8,
                Op::Delta => 2u8,
            }
            &&& big_endian(s.subrange(6, 10)) == header.len()
            &&& s.skip(10) == header
        }),
{
    let s = request_bytes(op, header);
    lemma_prefixed_layout(header);
    let p = prefixed_bytes(header);
    assert(s.subrange(6, 10) =~= p.take(4));
    assert(s.skip(10) =~= p.skip(4));
}

/// A request with other letters, another version or another operation is refused, each for its
/// own reason.
pub proof fn law_strange_request_is_refused(s: Seq<u8>)
    requires
        s.len() >= 6,
    ensures
        ({
            let ours = s[0] == 'F' as u8 && s[1] == 'D' as u8 && s[2] == 'B' as u8 && s[3]
                == 'I' as u8;
            &&& !ours ==> request_at(s, 0) == Err::<(Op, Seq<u8>, int), WireError>(
                WireError::BadMagic,
            )
            &&& ours && s[4] != 1 ==> request_at(s, 0) == Err::<(Op, Seq<u8>, int), WireError>(
                WireError::UnsupportedVersion,
            )
            &&& ours && s[4] == 1 && s[5] != 1 && s[5] != 2 ==> request_at(s, 0) == Err::<
                (Op, Seq<u8>, int),
                WireError,
            >(WireError::UnknownOp)
            &&& request_at(s, 0) is Ok ==> ours && s[4] == 1 && (s[5] == 1 || s[5] == 2)
        }),
{
    let w = s.subrange(0, 4);
    assert(w[0] == s[0] && w[1] == s[1] && w[2] == s[2] && w[3] == s[3]);
    if s[0] == 'F' as u8 && s[1] == 'D' as u8 && s[2] == 'B' as u8 && s[3] == 'I' as u8 {
        assert(w =~= MAGIC@);
    }
}

/// A reply begins with the same letters and a byte that is 1 if the request failed; behind
/// them stand the length of the text in four bytes and the text.
pub proof fn law_response_layout(failed: bool, json: Seq<u8>)
    requires
        json.len() < 0x1_0000_0000,
    ensures
        ({
            let s = response_bytes(failed, json);
            &&& s.len() == 9 + json.len()
            &&& s[0] == 'F' as u8 && s[1] == 'D' as u8 && s[2] == 'B' as u8 && s[3] == 'I' as u8
            &&& s[4] == 1 <==> failed
            &&& s[4] <= 1
            &&& big_endian(s.subrange(5, 9)) == json.len()
            &&& s.skip(9) == json
        }),
{
    let s = response_bytes(failed, json);
    lemma_prefixed_layout(json);
    let p = prefixed_bytes(json);
    assert(s.subrange(5, 9) =~= p.take(4));
    assert(s.skip(9) =~= p.skip(4));
}

/// A reply with other letters is refused.
pub proof fn law_strange_response_is_refused(s: Seq<u8>)
    requires
        s.len() >= 5,
        s[0] != 'F' as u8 || s[1] != 'D' as u8 || s[2] != 'B' as u8 || s[3] != 'I' as u8,
    ensures
        response_at(s, 0) == Err::<(Seq<u8>, int), WireError>(WireError::BadMagic),
{
    let w = s.subrange(0, 4);
    assert(w[0] == s[0] && w[1] == s[1] && w[2] == s[2] && w[3] == s[3]);
}

/// A piece of a body is its length in four bytes and the piece; an empty one is nothing, for a
/// length of 0 ends the body.
pub proof fn law_frame_layout(b: Seq<u8>)
    requires
        b.len() < 0x1_0000_0000,
    ensures
        b.len() == 0 ==> frame(b).len() == 0,
        b.len() > 0 ==> frame(b).len() == 4 + b.len() && big_endian(frame(b).take(4)) == b.len()
            && frame(b).skip(4) == b,
{
    lemma_prefixed_layout(b);
}

// ── The file of keys ─────────────────────────────────────────────────────────

proof fn lemma_le32(n: int)
    requires
        0 <= n < 0x1_0000_0000,
    ensures
        le32_bytes(n).len() == 4,
        little_endian(le32_bytes(n)) == n,
{
    let s = le32_bytes(n);
    assert(s.subrange(0, 4) =~= s);
    crate::bytes::lemma_le32_round_trip(n, s, 0);
    lemma_little4(s, 0);
}

proof fn lemma_le64(n: int)
    requires
        0 <= n < 0x1_0000_0000_0000_0000,
    ensures
        le64_bytes(n).len() == 8,
        little_endian(le64_bytes(n)) == n,
{
    let s = le64_bytes(n);
    assert(s.subrange(0, 8) =~= s);
    crate::bytes::lemma_le64_round_trip(n, s, 0);
    lemma_little8(s, 0);
}

/// The file begins with the letters FDBS, the version 1 and the number of its tables; behind
/// them stand the tables.
pub proof fn law_snapshot_layout(tables: Seq<Saved>, ws: Seq<Seq<u32>>)
    requires
        tables.len() < 0x1_0000_0000_0000_0000,
    ensures
        ({
            let s = snapshot_bytes(tables, ws);
            &&& s.len() >= 16
            &&& s[0] == 'F' as u8 && s[1] == 'D' as u8 && s[2] == 'B' as u8 && s[3] == 'S' as u8
            &&& little_endian(s.subrange(4, 8)) == 1
            &&& little_endian(s.subrange(8, 16)) == tables.len()
            &&& s.skip(16) == concat(table_pieces(tables, ws))
        }),
{
    let s = snapshot_bytes(tables, ws);
    lemma_le32(1);
    lemma_le64(tables.len() as int);
    assert(s.subrange(4, 8) =~= le32_bytes(1));
    assert(s.subrange(8, 16) =~= le64_bytes(tables.len() as int));
    assert(s.skip(16) =~= concat(table_pieces(tables, ws)));
}

/// A table in the file is the length of its name, its name, the length of a key, the number of
/// its pages and the pages; a page is its number, the length of its keys, and the keys.
pub proof fn law_snapshot_table_layout(t: Saved, w: Seq<u32>, n: u32, flat: Seq<u8>)
    requires
        encode_utf8(t.name).len() < 0x1_0000_0000,
        0 <= t.stride < 0x1_0000_0000,
        w.len() < 0x1_0000_0000_0000_0000,
        flat.len() < 0x1_0000_0000,
    ensures
        ({
            let s = table_piece(t.name, t.stride, t.pages, w);
            let k = encode_utf8(t.name).len() as int;
            &&& s.len() >= 16 + k
            &&& little_endian(s.subrange(0, 4)) == k
            &&& s.subrange(4, 4 + k) == encode_utf8(t.name)
            &&& little_endian(s.subrange(4 + k, 8 + k)) == t.stride
            &&& little_endian(s.subrange(8 + k, 16 + k)) == w.len()
            &&& s.skip(16 + k) == concat(page_pieces(t.pages, w))
        }),
        ({
            let p = page_piece(n, flat);
            &&& p.len() == 8 + flat.len()
            &&& little_endian(p.subrange(0, 4)) == n
            &&& little_endian(p.subrange(4, 8)) == flat.len()
            &&& p.skip(8) == flat
        }),
{
    let s = table_piece(t.name, t.stride, t.pages, w);
    let k = encode_utf8(t.name).len() as int;
    lemma_le32(k);
    lemma_le32(t.stride);
    lemma_le64(w.len() as int);
    lemma_le32(n as int);
    lemma_le32(flat.len() as int);
    assert(s.subrange(0, 4) =~= le32_bytes(k));
    assert(s.subrange(4, 4 + k) =~= encode_utf8(t.name));
    assert(s.subrange(4 + k, 8 + k) =~= le32_bytes(t.stride));
    assert(s.subrange(8 + k, 16 + k) =~= le64_bytes(w.len() as int));
    assert(s.skip(16 + k) =~= concat(page_pieces(t.pages, w)));
    let p = page_piece(n, flat);
    assert(p.subrange(0, 4) =~= le32_bytes(n as int));
    assert(p.subrange(4, 8) =~= le32_bytes(flat.len() as int));
    assert(p.skip(8) =~= flat);
}

/// A file with other letters or another version holds nothing.
pub proof fn law_strange_snapshot_is_refused(s: Seq<u8>)
    requires
        s.len() < 16 || s[0] != 'F' as u8 || s[1] != 'D' as u8 || s[2] != 'B' as u8 || s[3]
            != 'S' as u8 || little_endian(s.subrange(4, 8)) != 1,
    ensures
        parse_snapshot(s) is None,
{
    if s.len() >= 16 {
        let w = s.take(4);
        assert(w[0] == s[0] && w[1] == s[1] && w[2] == s[2] && w[3] == s[3]);
        lemma_little4(s, 4);
    }
}

/// A reply or a request that ends too early is refused with the number of bytes that are
/// missing.
pub proof fn law_missing_bytes_are_counted(s: Seq<u8>, i: int, n: int)
    requires
        0 <= i <= s.len() <= u64::MAX - n,
        0 <= n,
    ensures
        i + n <= s.len() ==> exact(s, i, n) == Ok::<int, WireError>(i + n),
        i + n > s.len() ==> exact(s, i, n) is Err && exact(s, i, n)->Err_0 is UnexpectedEof
            && s.len() + exact(s, i, n)->Err_0->missing == i + n,
{
}

} // verus!
