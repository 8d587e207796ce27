//! The file in which the keys of the tables are kept from run to run.
//!
//! It starts with `FDBS`, a version (32 bits, least significant byte first, as all
//! numbers) and the number of tables (64 bits). A table is its name behind its length,
//! the length of a key, the number of its pages (64 bits), and for each page its number,
//! the length of its keys and the keys.
use crate::bytes::{
    append, copy_range, get_u32, get_u64, le32, le32_bytes, le64, le64_bytes, len32,
    lemma_le32_round_trip, lemma_le64_round_trip, push_le32, push_le64,
};
use crate::cdc::TableCache;
use crate::extract::concat;
use crate::maps::{is_walk, keys_of};
use crate::names::{distinct_names, lookup, put};
use crate::text::from_utf8;
use std::collections::HashMap;
use vstd::prelude::*;
use vstd::slice::slice_subrange;
use vstd::utf8::{
    decode_utf8, encode_utf8, encode_utf8_decode_utf8, encode_utf8_valid_utf8, valid_utf8,
};

verus! {

/// The key lists of the pages.
pub open spec fn flat_views(m: Map<u32, Vec<u8>>) -> Map<u32, Seq<u8>> {
    Map::new(|n: u32| m.contains_key(n), |n: u32| m[n]@)
}

// ── Reading ──────────────────────────────────────────────────────────────────

/// `n` pages from position `i` on, put into `acc`, and where they end; `None` where the
/// data ends before.
pub open spec fn parse_pages(
    data: Seq<u8>,
    i: int,
    n: nat,
    acc: Map<u32, Seq<u8>>,
) -> Option<(Map<u32, Seq<u8>>, int)>
    decreases n,
{
    if n == 0 {
        Some((acc, i))
    } else if i + 8 > data.len() || i + 8 + le32(data, i + 4) > data.len() {
        None
    } else {
        let end = i + 8 + le32(data, i + 4);
        parse_pages(
            data,
            end,
            (n - 1) as nat,
            acc.insert(le32(data, i) as u32, data.subrange(i + 8, end)),
        )
    }
}

/// The length of a key and the pages of a table.
pub type TableKeys = (int, Map<u32, Seq<u8>>);

/// A table at position `i`: its name, its keys, and where it ends.
pub open spec fn parse_table(data: Seq<u8>, i: int) -> Option<(Seq<char>, TableKeys, int)> {
    if i + 4 > data.len() {
        None
    } else {
        let s = i + 4;
        let t = s + le32(data, i);
        if t > data.len() || !valid_utf8(data.subrange(s, t)) || t + 12 > data.len() {
            None
        } else {
            match parse_pages(data, t + 12, le64(data, t + 4) as nat, Map::empty()) {
                None => None,
                Some((pages, end)) => Some(
                    (decode_utf8(data.subrange(s, t)), (le32(data, t), pages), end),
                ),
            }
        }
    }
}

/// `n` tables from position `i` on, put into `acc`.
pub open spec fn parse_tables(
    data: Seq<u8>,
    i: int,
    n: nat,
    acc: Map<Seq<char>, TableKeys>,
) -> Option<Map<Seq<char>, TableKeys>>
    decreases n,
{
    if n == 0 {
        Some(acc)
    } else {
        match parse_table(data, i) {
            None => None,
            Some((name, keys, end)) => parse_tables(
                data,
                end,
                (n - 1) as nat,
                acc.insert(name, keys),
            ),
        }
    }
}

/// The magic number of the file.
pub open spec fn snapshot_magic() -> Seq<u8> {
    seq![0x46u8, 0x44u8, 0x42u8, 0x53u8]
}

/// What a file holds; `None` where it is not a snapshot or is cut off.
pub open spec fn parse_snapshot(data: Seq<u8>) -> Option<Map<Seq<char>, TableKeys>> {
    if data.len() < 16 || data.take(4) != snapshot_magic() || le32(data, 4) != 1 {
        None
    } else {
        parse_tables(data, 16, le64(data, 8) as nat, Map::empty())
    }
}

/// What stands for a table in the list that is loaded.
pub open spec fn keys_view(x: (usize, HashMap<u32, Vec<u8>>)) -> TableKeys {
    (x.0 as int, flat_views(x.1@))
}

/// Whether a list of tables holds `m`.
pub open spec fn tables_show(
    v: Seq<(String, (usize, HashMap<u32, Vec<u8>>))>,
    m: Map<Seq<char>, TableKeys>,
) -> bool {
    &&& distinct_names(v)
    &&& forall|n: Seq<char>|
        match #[trigger] lookup(v, n) {
            Some(x) => m.contains_key(n) && m[n] == keys_view(x),
            None => !m.contains_key(n),
        }
}

fn read_pages(data: &[u8], at: usize, n: u64) -> (r: Option<(HashMap<u32, Vec<u8>>, usize)>)
    requires
        at <= data@.len(),
    ensures
        match r {
            Some((m, end)) => parse_pages(data@, at as int, n as nat, Map::empty()) == Some(
                (flat_views(m@), end as int),
            ) && end <= data@.len(),
            None => parse_pages(data@, at as int, n as nat, Map::empty()) is None,
        },
{
    broadcast use vstd::std_specs::hash::group_hash_axioms;

    let mut m: HashMap<u32, Vec<u8>> = HashMap::new();
    let mut i: usize = at;
    let mut left: u64 = n;
    assert(flat_views(m@) =~= Map::empty());
    while left > 0
        invariant
            i <= data@.len(),
            left <= n,
            parse_pages(data@, at as int, n as nat, Map::empty()) == parse_pages(
                data@,
                i as int,
                left as nat,
                flat_views(m@),
            ),
        decreases left,
    {
        if data.len() - i < 8 {
            return None;
        }
        let pn: u32 = get_u32(data, i);
        let fl: usize = get_u32(data, i + 4) as usize;
        if data.len() - i - 8 < fl {
            return None;
        }
        let ghost before = flat_views(m@);
        let flat: Vec<u8> = copy_range(data, i + 8, i + 8 + fl);
        m.insert(pn, flat);
        assert(flat_views(m@) =~= before.insert(pn, flat@));
        i = i + 8 + fl;
        left = left - 1;
    }
    Some((m, i))
}

fn read_table(data: &[u8], at: usize) -> (r: Option<
    (String, (usize, HashMap<u32, Vec<u8>>), usize),
>)
    requires
        at <= data@.len(),
    ensures
        match r {
            Some((name, keys, end)) => parse_table(data@, at as int) == Some(
                (name@, keys_view(keys), end as int),
            ) && end <= data@.len(),
            None => parse_table(data@, at as int) is None,
        },
{
    if data.len() - at < 4 {
        return None;
    }
    let nl: usize = get_u32(data, at) as usize;
    let s: usize = at + 4;
    if data.len() - s < nl {
        return None;
    }
    let t: usize = s + nl;
    let name: &str = match from_utf8(slice_subrange(data, s, t)) {
        Some(name) => name,
        None => {
            return None;
        },
    };
    if data.len() - t < 12 {
        return None;
    }
    let stride: usize = get_u32(data, t) as usize;
    let n_pages: u64 = get_u64(data, t + 4);
    match read_pages(data, t + 12, n_pages) {
        None => None,
        Some((pages, end)) => Some((name.to_owned(), (stride, pages), end)),
    }
}

/// Reads the keys that were saved; nothing where the data is no snapshot or is cut off.
pub fn load_snapshots(data: &[u8]) -> (r: Vec<(String, (usize, HashMap<u32, Vec<u8>>))>)
    ensures
        tables_show(
            r@,
            match parse_snapshot(data@) {
                Some(m) => m,
                None => Map::empty(),
            },
        ),
{
    let empty: Vec<(String, (usize, HashMap<u32, Vec<u8>>))> = Vec::new();
    if data.len() < 16 {
        return empty;
    }
    assert(data@.take(4) =~= seq![data@[0], data@[1], data@[2], data@[3]]);
    if data[0] != 0x46 || data[1] != 0x44 || data[2] != 0x42 || data[3] != 0x53 {
        assert(data@.take(4)[0] == data@[0] && data@.take(4)[1] == data@[1] && data@.take(4)[2]
            == data@[2] && data@.take(4)[3] == data@[3]);
        return empty;
    }
    assert(data@.take(4) =~= snapshot_magic());
    if get_u32(data, 4) != 1 {
        return empty;
    }
    let n_tables: u64 = get_u64(data, 8);
    let mut out: Vec<(String, (usize, HashMap<u32, Vec<u8>>))> = Vec::new();
    let mut i: usize = 16;
    let mut left: u64 = n_tables;
    let ghost mut acc: Map<Seq<char>, TableKeys> = Map::empty();
    while left > 0
        invariant
            i <= data@.len(),
            parse_snapshot(data@) == parse_tables(data@, i as int, left as nat, acc),
            tables_show(out@, acc),
            empty@.len() == 0,
        decreases left,
    {
        match read_table(data, i) {
            None => {
                return empty;
            },
            Some((name, keys, end)) => {
                let ghost before = out@;
                let ghost now = acc.insert(name@, keys_view(keys));
                let ghost n0 = name@;
                put(&mut out, name, keys);
                proof {
                    assert forall|n: Seq<char>|
                        match #[trigger] lookup(out@, n) {
                            Some(x) => now.contains_key(n) && now[n] == keys_view(x),
                            None => !now.contains_key(n),
                        } by {
                        let prior = lookup(before, n);
                    }
                    acc = now;
                }
                i = end;
            },
        }
        left = left - 1;
    }
    out
}

// ── Writing ──────────────────────────────────────────────────────────────────

/// A page: its number, the length of its keys, and the keys.
pub open spec fn page_piece(n: u32, flat: Seq<u8>) -> Seq<u8> {
    le32_bytes(n as int) + le32_bytes(flat.len() as int) + flat
}

/// The pages `w`.
pub open spec fn page_pieces(m: Map<u32, Vec<u8>>, w: Seq<u32>) -> Seq<Seq<u8>> {
    w.map_values(|n: u32| page_piece(n, m[n]@))
}

/// A table: its name, the length of its keys, and its pages in the order `w`.
pub open spec fn table_piece(name: Seq<char>, stride: int, m: Map<u32, Vec<u8>>, w: Seq<u32>) -> Seq<
    u8,
> {
    le32_bytes(encode_utf8(name).len() as int) + encode_utf8(name) + le32_bytes(stride)
        + le64_bytes(w.len() as int) + concat(page_pieces(m, w))
}

/// A table whose keys are saved.
#[verifier::ext_equal]
pub struct Saved {
    pub name: Seq<char>,
    pub stride: int,
    pub pages: Map<u32, Vec<u8>>,
}

/// Whether there are keys to save.
pub open spec fn has_keys(c: Option<TableCache>) -> bool {
    c is Some && c->0.pk_byte_len > 0 && !c->0.prev_pks_per_page@.is_empty()
}

/// The tables whose keys are saved, in the order of the list.
pub open spec fn saved_tables(v: Seq<(String, Option<TableCache>)>) -> Seq<Saved>
    decreases v.len(),
{
    if v.len() == 0 {
        Seq::empty()
    } else if has_keys(v.last().1) {
        saved_tables(v.drop_last()).push(
            Saved {
                name: v.last().0@,
                stride: v.last().1->0.pk_byte_len as int,
                pages: v.last().1->0.prev_pks_per_page@,
            },
        )
    } else {
        saved_tables(v.drop_last())
    }
}

/// Whether `ws` lists the pages of each of the tables.
pub open spec fn are_walks(ws: Seq<Seq<u32>>, tables: Seq<Saved>) -> bool {
    &&& ws.len() == tables.len()
    &&& forall|i: int| 0 <= i < ws.len() ==> is_walk(#[trigger] ws[i], tables[i].pages.dom())
}

/// The tables, with their pages in the orders `ws`.
pub open spec fn table_pieces(tables: Seq<Saved>, ws: Seq<Seq<u32>>) -> Seq<Seq<u8>> {
    Seq::new(
        tables.len(),
        |i: int| table_piece(tables[i].name, tables[i].stride, tables[i].pages, ws[i]),
    )
}

/// The whole file.
pub open spec fn snapshot_bytes(tables: Seq<Saved>, ws: Seq<Seq<u32>>) -> Seq<u8> {
    snapshot_magic() + le32_bytes(1) + le64_bytes(tables.len() as int) + concat(
        table_pieces(tables, ws),
    )
}

fn push_table(out: &mut Vec<u8>, name: &str, c: &TableCache) -> (w: Ghost<Seq<u32>>)
    ensures
        is_walk(w@, c.prev_pks_per_page@.dom()),
        final(out)@ == old(out)@ + table_piece(
            name@,
            c.pk_byte_len as int,
            c.prev_pks_per_page@,
            w@,
        ),
{
    broadcast use vstd::std_specs::hash::group_hash_axioms;

    let nb: &[u8] = name.as_bytes();
    let nl: u32 = len32(nb.len());
    let stride: u32 = len32(c.pk_byte_len);
    let keys: Vec<u32> = keys_of(&c.prev_pks_per_page);
    let ghost m = c.prev_pks_per_page@;
    push_le32(out, nl);
    append(out, nb);
    push_le32(out, stride);
    push_le64(out, keys.len() as u64);
    let ghost base = out@;
    proof {
        assert(le32_bytes(nl as int) == le32_bytes(nb@.len() as int));
        assert(le32_bytes(stride as int) == le32_bytes(c.pk_byte_len as int));
    }
    let mut i: usize = 0;
    assert(page_pieces(m, keys@.take(0)) =~= Seq::empty());
    while i < keys.len()
        invariant
            i <= keys@.len(),
            m == c.prev_pks_per_page@,
            is_walk(keys@, m.dom()),
            out@ == base + concat(page_pieces(m, keys@.take(i as int))),
        decreases keys@.len() - i,
    {
        let n: u32 = keys[i];
        assert(keys@.contains(n));
        if let Some(flat) = c.prev_pks_per_page.get(&n) {
            let fl: u32 = len32(flat.len());
            let ghost before = out@;
            push_le32(out, n);
            push_le32(out, fl);
            append(out, flat.as_slice());
            proof {
                assert(le32_bytes(fl as int) == le32_bytes(flat@.len() as int));
                let now = page_pieces(m, keys@.take(i + 1));
                assert(now.drop_last() =~= page_pieces(m, keys@.take(i as int)));
                assert(now.last() == page_piece(n, flat@));
                assert(out@ =~= before + page_piece(n, flat@));
                assert(out@ =~= base + concat(now));
            }
        }
        i = i + 1;
    }
    proof {
        assert(keys@.take(i as int) =~= keys@);
        assert(out@ =~= old(out)@ + table_piece(
            name@,
            c.pk_byte_len as int,
            m,
            keys@,
        ));
    }
    Ghost(keys@)
}

/// Whether there are keys to save.
fn worth_saving(c: &Option<TableCache>) -> (r: bool)
    ensures
        r == has_keys(*c),
{
    match c {
        Some(c) => c.pk_byte_len > 0 && !c.prev_pks_per_page.is_empty(),
        None => false,
    }
}

/// Writes the keys of the tables.
pub fn save_snapshots(caches: &Vec<(String, Option<TableCache>)>) -> (r: Vec<u8>)
    ensures
        exists|ws: Seq<Seq<u32>>|
            {
                &&& #[trigger] are_walks(ws, saved_tables(caches@))
                &&& r@ == snapshot_bytes(saved_tables(caches@), ws)
            },
{
    let mut n: u64 = 0;
    let mut i: usize = 0;
    while i < caches.len()
        invariant
            i <= caches@.len(),
            n <= i,
            n == saved_tables(caches@.take(i as int)).len(),
        decreases caches@.len() - i,
    {
        assert(caches@.take(i + 1).drop_last() =~= caches@.take(i as int));
        if worth_saving(&caches[i].1) {
            n = n + 1;
        }
        i = i + 1;
    }
    assert(caches@.take(i as int) =~= caches@);
    let magic: [u8; 4] = [0x46, 0x44, 0x42, 0x53];
    let mut out: Vec<u8> = Vec::new();
    append(&mut out, magic.as_slice());
    push_le32(&mut out, 1);
    push_le64(&mut out, n);
    let ghost base = out@;
    let ghost head = snapshot_magic() + le32_bytes(1) + le64_bytes(n as int);
    assert(base =~= head);
    let ghost mut ws: Seq<Seq<u32>> = Seq::empty();
    let mut j: usize = 0;
    proof {
        assert(saved_tables(caches@.take(0)) =~= Seq::empty());
        assert(table_pieces(Seq::empty(), ws) =~= Seq::empty());
        assert(base + concat(Seq::empty()) =~= base);
    }
    while j < caches.len()
        invariant
            j <= caches@.len(),
            are_walks(ws, saved_tables(caches@.take(j as int))),
            out@ == base + concat(table_pieces(saved_tables(caches@.take(j as int)), ws)),
        decreases caches@.len() - j,
    {
        let ghost before = saved_tables(caches@.take(j as int));
        assert(caches@.take(j + 1).drop_last() =~= caches@.take(j as int));
        if worth_saving(&caches[j].1) {
            if let Some(c) = &caches[j].1 {
                let ghost prior = out@;
                let w: Ghost<Seq<u32>> = push_table(&mut out, caches[j].0.as_str(), c);
                proof {
                    let now = saved_tables(caches@.take(j + 1));
                    let more = ws.push(w@);
                    assert(are_walks(more, now)) by {
                        assert forall|k: int| 0 <= k < more.len() implies is_walk(
                            #[trigger] more[k],
                            now[k].pages.dom(),
                        ) by {
                            if k < ws.len() {
                                assert(more[k] == ws[k]);
                                assert(now[k] == before[k]);
                            }
                        }
                    }
                    let pieces = table_pieces(now, more);
                    assert(pieces.drop_last() =~= table_pieces(before, ws));
                    assert(out@ =~= base + concat(pieces));
                    ws = more;
                }
            }
        }
        j = j + 1;
    }
    proof {
        assert(caches@.take(j as int) =~= caches@);
        assert(are_walks(ws, saved_tables(caches@)));
    }
    out
}

// ── Reading what was written ─────────────────────────────────────────────────

proof fn lemma_concat_front(pieces: Seq<Seq<u8>>)
    requires
        pieces.len() > 0,
    ensures
        concat(pieces) == pieces[0] + concat(pieces.skip(1)),
    decreases pieces.len(),
{
    if pieces.len() == 1 {
        assert(pieces.drop_last() =~= Seq::empty());
        assert(pieces.skip(1) =~= Seq::empty());
        assert(concat(pieces.drop_last()) =~= Seq::empty());
        assert(concat(pieces) =~= pieces[0]);
        assert(pieces[0] + concat(pieces.skip(1)) =~= pieces[0]);
    } else {
        lemma_concat_front(pieces.drop_last());
        assert(pieces.drop_last().skip(1) =~= pieces.skip(1).drop_last());
        assert(concat(pieces) =~= pieces[0] + concat(pieces.skip(1)));
    }
}

/// `acc` with the pages `w` of `m`.
spec fn with_pages(acc: Map<u32, Seq<u8>>, m: Map<u32, Vec<u8>>, w: Seq<u32>) -> Map<
    u32,
    Seq<u8>,
>
    decreases w.len(),
{
    if w.len() == 0 {
        acc
    } else {
        with_pages(acc.insert(w[0], m[w[0]]@), m, w.skip(1))
    }
}

proof fn lemma_with_pages(acc: Map<u32, Seq<u8>>, m: Map<u32, Vec<u8>>, w: Seq<u32>, n: u32)
    ensures
        with_pages(acc, m, w).contains_key(n) <==> acc.contains_key(n) || w.contains(n),
        w.contains(n) ==> with_pages(acc, m, w)[n] == m[n]@,
        acc.contains_key(n) && !w.contains(n) ==> with_pages(acc, m, w)[n] == acc[n],
    decreases w.len(),
{
    if w.len() > 0 {
        let next = acc.insert(w[0], m[w[0]]@);
        let tail = w.skip(1);
        lemma_with_pages(next, m, tail, n);
        if tail.contains(n) {
            let i = choose|i: int| 0 <= i < tail.len() && tail[i] == n;
            assert(w[i + 1] == n);
        }
        if w.contains(n) && n != w[0] {
            let i = choose|i: int| 0 <= i < w.len() && w[i] == n;
            assert(tail[i - 1] == n);
        }
        assert(w.contains(w[0]));
    }
}

/// Whether the key lists of a table are short enough for the file.
pub open spec fn lists_fit(m: Map<u32, Vec<u8>>) -> bool {
    forall|n: u32| #[trigger] m.contains_key(n) ==> m[n]@.len() <= u32::MAX
}

proof fn lemma_parse_pages(
    data: Seq<u8>,
    i: int,
    m: Map<u32, Vec<u8>>,
    w: Seq<u32>,
    acc: Map<u32, Seq<u8>>,
)
    requires
        0 <= i,
        i + concat(page_pieces(m, w)).len() <= data.len(),
        data.subrange(i, i + concat(page_pieces(m, w)).len()) == concat(page_pieces(m, w)),
        forall|k: int| 0 <= k < w.len() ==> m.contains_key(#[trigger] w[k]),
        lists_fit(m),
    ensures
        parse_pages(data, i, w.len(), acc) == Some(
            (with_pages(acc, m, w), i + concat(page_pieces(m, w)).len()),
        ),
    decreases w.len(),
{
    let pieces = page_pieces(m, w);
    let all = concat(pieces);
    if w.len() > 0 {
        let tail = w.skip(1);
        lemma_concat_front(pieces);
        assert(pieces.skip(1) =~= page_pieces(m, tail));
        let n = w[0];
        let flat = m[n]@;
        let rest = concat(page_pieces(m, tail));
        assert(m.contains_key(w[0]));
        assert(all =~= page_piece(n, flat) + rest);
        let win = data.subrange(i, i + all.len());
        assert(data.subrange(i, i + 4) =~= win.subrange(0, 4));
        assert(win.subrange(0, 4) =~= le32_bytes(n as int));
        lemma_le32_round_trip(n as int, data, i);
        assert(data.subrange(i + 4, i + 8) =~= win.subrange(4, 8));
        assert(win.subrange(4, 8) =~= le32_bytes(flat.len() as int));
        lemma_le32_round_trip(flat.len() as int, data, i + 4);
        let end = i + 8 + flat.len() as int;
        assert(data.subrange(i + 8, end) =~= win.subrange(8, 8 + flat.len() as int));
        assert(win.subrange(8, 8 + flat.len() as int) =~= flat);
        assert(data.subrange(end, end + rest.len()) =~= win.subrange(
            8 + flat.len() as int,
            all.len() as int,
        ));
        assert(win.subrange(8 + flat.len() as int, all.len() as int) =~= rest);
        assert forall|k: int| 0 <= k < tail.len() implies m.contains_key(#[trigger] tail[k]) by {
            assert(w[k + 1] == tail[k]);
        }
        lemma_parse_pages(data, end, m, tail, acc.insert(n, flat));
    }
}

/// Whether a table fits the file.
pub open spec fn table_fits(t: Saved) -> bool {
    &&& encode_utf8(t.name).len() <= u32::MAX
    &&& 0 <= t.stride <= u32::MAX
    &&& lists_fit(t.pages)
}

proof fn lemma_parse_table(data: Seq<u8>, i: int, t: Saved, w: Seq<u32>)
    requires
        0 <= i,
        ({
            let piece = table_piece(t.name, t.stride, t.pages, w);
            &&& i + piece.len() <= data.len()
            &&& data.subrange(i, i + piece.len()) == piece
        }),
        is_walk(w, t.pages.dom()),
        w.len() <= u64::MAX,
        table_fits(t),
    ensures
        parse_table(data, i) == Some(
            (
                t.name,
                (t.stride, flat_views(t.pages)),
                i + table_piece(t.name, t.stride, t.pages, w).len(),
            ),
        ),
{
    let piece = table_piece(t.name, t.stride, t.pages, w);
    let nb = encode_utf8(t.name);
    let body = concat(page_pieces(t.pages, w));
    let win = data.subrange(i, i + piece.len());
    let s = i + 4;
    let e = s + nb.len();
    assert(data.subrange(i, i + 4) =~= win.subrange(0, 4));
    assert(win.subrange(0, 4) =~= le32_bytes(nb.len() as int));
    lemma_le32_round_trip(nb.len() as int, data, i);
    assert(data.subrange(s, e) =~= win.subrange(4, 4 + nb.len() as int));
    assert(win.subrange(4, 4 + nb.len() as int) =~= nb);
    encode_utf8_valid_utf8(t.name);
    encode_utf8_decode_utf8(t.name);
    assert(data.subrange(e, e + 4) =~= win.subrange(4 + nb.len() as int, 8 + nb.len() as int));
    assert(win.subrange(4 + nb.len() as int, 8 + nb.len() as int) =~= le32_bytes(t.stride));
    lemma_le32_round_trip(t.stride, data, e);
    assert(data.subrange(e + 4, e + 12) =~= win.subrange(8 + nb.len() as int, 16 + nb.len() as int));
    assert(win.subrange(8 + nb.len() as int, 16 + nb.len() as int) =~= le64_bytes(w.len() as int));
    lemma_le64_round_trip(w.len() as int, data, e + 4);
    assert(data.subrange(e + 12, e + 12 + body.len() as int) =~= win.subrange(
        16 + nb.len() as int,
        piece.len() as int,
    ));
    assert(win.subrange(16 + nb.len() as int, piece.len() as int) =~= body);
    assert forall|k: int| 0 <= k < w.len() implies t.pages.contains_key(#[trigger] w[k]) by {
        assert(w.contains(w[k]));
    }
    lemma_parse_pages(data, e + 12, t.pages, w, Map::empty());
    let got = with_pages(Map::empty(), t.pages, w);
    assert(got =~= flat_views(t.pages)) by {
        assert forall|n: u32| #[trigger] got.contains_key(n) <==> flat_views(
            t.pages,
        ).contains_key(n) by {
            lemma_with_pages(Map::empty(), t.pages, w, n);
            assert(w.contains(n) <==> t.pages.dom().contains(n));
        }
        assert forall|n: u32| #[trigger] got.contains_key(n) implies got[n] == flat_views(
            t.pages,
        )[n] by {
            lemma_with_pages(Map::empty(), t.pages, w, n);
            assert(w.contains(n));
        }
    }
}

/// `acc` with the tables.
spec fn with_tables(acc: Map<Seq<char>, TableKeys>, tables: Seq<Saved>) -> Map<
    Seq<char>,
    TableKeys,
>
    decreases tables.len(),
{
    if tables.len() == 0 {
        acc
    } else {
        with_tables(
            acc.insert(tables[0].name, (tables[0].stride, flat_views(tables[0].pages))),
            tables.skip(1),
        )
    }
}

proof fn lemma_parse_tables(
    data: Seq<u8>,
    i: int,
    tables: Seq<Saved>,
    ws: Seq<Seq<u32>>,
    acc: Map<Seq<char>, TableKeys>,
)
    requires
        0 <= i,
        i + concat(table_pieces(tables, ws)).len() <= data.len(),
        data.subrange(i, i + concat(table_pieces(tables, ws)).len()) == concat(
            table_pieces(tables, ws),
        ),
        are_walks(ws, tables),
        forall|k: int| 0 <= k < ws.len() ==> (#[trigger] ws[k]).len() <= u64::MAX,
        forall|k: int| 0 <= k < tables.len() ==> table_fits(#[trigger] tables[k]),
    ensures
        parse_tables(data, i, tables.len(), acc) == Some(with_tables(acc, tables)),
    decreases tables.len(),
{
    let pieces = table_pieces(tables, ws);
    let all = concat(pieces);
    if tables.len() > 0 {
        let tail = tables.skip(1);
        let wtail = ws.skip(1);
        lemma_concat_front(pieces);
        assert(pieces.skip(1) =~= table_pieces(tail, wtail));
        let t = tables[0];
        let w = ws[0];
        let piece = table_piece(t.name, t.stride, t.pages, w);
        let rest = concat(table_pieces(tail, wtail));
        let win = data.subrange(i, i + all.len());
        assert(all =~= piece + rest);
        assert(data.subrange(i, i + piece.len()) =~= win.subrange(0, piece.len() as int));
        assert(win.subrange(0, piece.len() as int) =~= piece);
        assert(table_fits(tables[0]));
        assert(is_walk(ws[0], tables[0].pages.dom()));
        lemma_parse_table(data, i, t, w);
        let end = i + piece.len();
        assert(data.subrange(end, end + rest.len()) =~= win.subrange(
            piece.len() as int,
            all.len() as int,
        ));
        assert(win.subrange(piece.len() as int, all.len() as int) =~= rest);
        assert(are_walks(wtail, tail)) by {
            assert forall|k: int| 0 <= k < wtail.len() implies is_walk(
                #[trigger] wtail[k],
                tail[k].pages.dom(),
            ) by {
                assert(is_walk(ws[k + 1], tables[k + 1].pages.dom()));
            }
        }
        assert forall|k: int| 0 <= k < wtail.len() implies (#[trigger] wtail[k]).len()
            <= u64::MAX by {
            assert(ws[k + 1].len() <= u64::MAX);
        }
        assert forall|k: int| 0 <= k < tail.len() implies table_fits(#[trigger] tail[k]) by {
            assert(table_fits(tables[k + 1]));
        }
        lemma_parse_tables(
            data,
            end,
            tail,
            wtail,
            acc.insert(t.name, (t.stride, flat_views(t.pages))),
        );
    }
}

/// Whether `m` holds exactly the tables.
pub open spec fn holds_tables(m: Map<Seq<char>, TableKeys>, tables: Seq<Saved>) -> bool {
    &&& forall|k: int|
        0 <= k < tables.len() ==> m.contains_key((#[trigger] tables[k]).name)
            && m[tables[k].name] == (tables[k].stride, flat_views(tables[k].pages))
    &&& forall|n: Seq<char>| #[trigger]
        m.contains_key(n) ==> exists|k: int|
            0 <= k < tables.len() && (#[trigger] tables[k]).name == n
}

/// A name that none of the tables has is not touched.
proof fn lemma_other_name(acc: Map<Seq<char>, TableKeys>, tables: Seq<Saved>, n: Seq<char>)
    requires
        forall|k: int| 0 <= k < tables.len() ==> (#[trigger] tables[k]).name != n,
    ensures
        with_tables(acc, tables).contains_key(n) <==> acc.contains_key(n),
        acc.contains_key(n) ==> with_tables(acc, tables)[n] == acc[n],
    decreases tables.len(),
{
    if tables.len() > 0 {
        let t = tables[0];
        let tail = tables.skip(1);
        assert(tables[0].name != n);
        assert forall|k: int| 0 <= k < tail.len() implies (#[trigger] tail[k]).name != n by {
            assert(tables[k + 1].name != n);
        }
        lemma_other_name(acc.insert(t.name, (t.stride, flat_views(t.pages))), tail, n);
    }
}

/// Every table is there under its name.
proof fn lemma_table_there(acc: Map<Seq<char>, TableKeys>, tables: Seq<Saved>, k: int)
    requires
        0 <= k < tables.len(),
        forall|i: int, j: int|
            0 <= i < j < tables.len() ==> (#[trigger] tables[i]).name != (
            #[trigger] tables[j]).name,
    ensures
        with_tables(acc, tables).contains_key(tables[k].name),
        with_tables(acc, tables)[tables[k].name] == (
            tables[k].stride,
            flat_views(tables[k].pages),
        ),
    decreases tables.len(),
{
    let t = tables[0];
    let next = acc.insert(t.name, (t.stride, flat_views(t.pages)));
    let tail = tables.skip(1);
    if k == 0 {
        assert forall|i: int| 0 <= i < tail.len() implies (#[trigger] tail[i]).name != t.name by {
            assert(tables[0].name != tables[i + 1].name);
        }
        lemma_other_name(next, tail, t.name);
    } else {
        assert forall|i: int, j: int| 0 <= i < j < tail.len() implies (#[trigger] tail[i]).name != (
        #[trigger] tail[j]).name by {
            assert(tables[i + 1].name != tables[j + 1].name);
        }
        lemma_table_there(next, tail, k - 1);
        assert(tail[k - 1] == tables[k]);
    }
}

/// What is saved is loaded again: every table that has keys, with the length of its keys
/// and all its pages, and no other. The numbers and lengths have to fit the fields of the
/// file.
pub proof fn law_snapshot_round_trip(tables: Seq<Saved>, ws: Seq<Seq<u32>>)
    requires
        are_walks(ws, tables),
        tables.len() <= u64::MAX,
        forall|k: int| 0 <= k < ws.len() ==> (#[trigger] ws[k]).len() <= u64::MAX,
        forall|k: int| 0 <= k < tables.len() ==> table_fits(#[trigger] tables[k]),
        forall|i: int, j: int|
            0 <= i < j < tables.len() ==> (#[trigger] tables[i]).name != (
            #[trigger] tables[j]).name,
    ensures
        parse_snapshot(snapshot_bytes(tables, ws)) is Some,
        holds_tables(parse_snapshot(snapshot_bytes(tables, ws))->0, tables),
{
    let data = snapshot_bytes(tables, ws);
    let body = concat(table_pieces(tables, ws));
    lemma_header(tables.len() as int, body);
    lemma_parse_tables(data, 16, tables, ws, Map::empty());
    let m = with_tables(Map::empty(), tables);
    assert(parse_snapshot(data) == Some(m));
    assert forall|k: int| 0 <= k < tables.len() implies m.contains_key(
        (#[trigger] tables[k]).name,
    ) && m[tables[k].name] == (tables[k].stride, flat_views(tables[k].pages)) by {
        lemma_table_there(Map::empty(), tables, k);
    }
    assert forall|n: Seq<char>| #[trigger] m.contains_key(n) implies exists|k: int|
        0 <= k < tables.len() && (#[trigger] tables[k]).name == n by {
        if forall|k: int| 0 <= k < tables.len() ==> (#[trigger] tables[k]).name != n {
            lemma_other_name(Map::empty(), tables, n);
        }
    }
}

/// The header of a file with `n` tables.
proof fn lemma_header(n: int, body: Seq<u8>)
    requires
        0 <= n <= u64::MAX,
    ensures
        ({
            let data = snapshot_magic() + le32_bytes(1) + le64_bytes(n) + body;
            &&& data.len() == 16 + body.len()
            &&& data.take(4) == snapshot_magic()
            &&& le32(data, 4) == 1
            &&& le64(data, 8) == n
            &&& data.subrange(16, 16 + body.len() as int) == body
        }),
{
    let data = snapshot_magic() + le32_bytes(1) + le64_bytes(n) + body;
    assert(data.take(4) =~= snapshot_magic());
    assert(data.subrange(4, 8) =~= le32_bytes(1));
    lemma_le32_round_trip(1, data, 4);
    assert(data.subrange(8, 16) =~= le64_bytes(n));
    lemma_le64_round_trip(n, data, 8);
    assert(data.subrange(16, 16 + body.len() as int) =~= body);
}

} // verus!
