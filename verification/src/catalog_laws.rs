//! What the lists that are read from the system relations hold, record by record.
use crate::bytes::{bytes_le, signed};
use crate::catalog::{
    column_in, constraint_in, in_meta, insert_ordered, lemma_ordered, ordered, pk_index_in, placed,
    relation_id_in, segment_in, table_in, text_at, values,
};
use crate::ods::{Image, OdsReader, Scan};
use crate::text::{eq_ascii_fold, texts, trimmed, trimmed_end, uppercase, Pad};
use crate::value_laws::{lemma_little2, little_endian};
use vstd::prelude::*;
use vstd::utf8::encode_utf8;

verus! {

// ── Records ──────────────────────────────────────────────────────────────────

pub proof fn lemma_collected_from<T>(sc: Scan, f: spec_fn(Seq<u8>) -> Option<Option<T>>, i: int) -> (k:
    int)
    requires
        sc.collect(f) is Some,
        0 <= i < sc.collect(f)->0.len(),
    ensures
        0 <= k < sc.recs.len(),
        f(sc.recs[k]) == Some(Some(sc.collect(f)->0[i])),
    decreases sc.recs.len(),
{
    if f(sc.recs[0]) == Some(None::<T>) {
        let k = lemma_collected_from(sc.rest(), f, i);
        assert(sc.recs[k + 1] == sc.rest().recs[k]);
        k + 1
    } else if i == 0 {
        0
    } else {
        let k = lemma_collected_from(sc.rest(), f, i - 1);
        assert(sc.recs[k + 1] == sc.rest().recs[k]);
        k + 1
    }
}

pub proof fn lemma_collected<T>(sc: Scan, f: spec_fn(Seq<u8>) -> Option<Option<T>>, k: int, x: T)
    requires
        sc.collect(f) is Some,
        0 <= k < sc.recs.len(),
        f(sc.recs[k]) == Some(Some(x)),
    ensures
        sc.collect(f)->0.contains(x),
    decreases sc.recs.len(),
{
    let all = sc.collect(f)->0;
    if k == 0 {
        assert(all[0] == x);
    } else {
        assert(sc.rest().recs[k - 1] == sc.recs[k]);
        lemma_collected(sc.rest(), f, k - 1, x);
        let rest = sc.rest().collect(f)->0;
        let j = choose|j: int| 0 <= j < rest.len() && rest[j] == x;
        if f(sc.recs[0]) == Some(None::<T>) {
            assert(all[j] == x);
        } else {
            assert(all[j + 1] == x);
        }
    }
}

/// What is found is what the first record gives that gives anything.
pub proof fn lemma_found<T>(sc: Scan, f: spec_fn(Seq<u8>) -> Option<Option<T>>) -> (k: int)
    requires
        sc.find(f) is Some,
    ensures
        match sc.find(f)->0 {
            Some(x) => {
                &&& 0 <= k < sc.recs.len()
                &&& f(sc.recs[k]) == Some(Some(x))
                &&& forall|i: int| 0 <= i < k ==> f(#[trigger] sc.recs[i]) == Some(None::<T>)
            },
            None => forall|i: int|
                0 <= i < sc.recs.len() ==> f(#[trigger] sc.recs[i]) == Some(None::<T>),
        },
    decreases sc.recs.len(),
{
    if sc.recs.len() == 0 {
        0
    } else if f(sc.recs[0]) == Some(None::<T>) {
        let k = lemma_found(sc.rest(), f);
        assert(forall|i: int| 0 < i < sc.recs.len() ==> sc.recs[i] == sc.rest().recs[i - 1]);
        assert(sc.find(f) == sc.rest().find(f));
        k + 1
    } else {
        0
    }
}

/// Whether `rec` is a row of a system relation.
pub open spec fn row_of(img: Image, relation: int, rec: Seq<u8>) -> bool {
    match img.first_pp(relation) {
        Some(Some(pp)) => exists|raw: Seq<u8>|
            {
                &&& #[trigger] img.relation(pp as int).recs.contains(raw)
                &&& img.unpack_meta(raw) == Some(Some(rec))
            },
        _ => false,
    }
}

/// Whether `rec` is the row that the record with this number holds.
pub open spec fn row_at(img: Image, relation: int, k: int, rec: Seq<u8>) -> bool {
    match img.first_pp(relation) {
        Some(Some(pp)) => {
            &&& 0 <= k < img.relation(pp as int).recs.len()
            &&& img.unpack_meta(img.relation(pp as int).recs[k]) == Some(Some(rec))
        },
        _ => false,
    }
}

proof fn lemma_row_listed<T>(img: Image, relation: int, g: spec_fn(Seq<u8>) -> Option<T>, i: int) -> (
rec: Seq<u8>)
    requires
        img.first_pp(relation) is Some,
        img.first_pp(relation)->0 is Some,
        img.relation(img.first_pp(relation)->0->0 as int).collect(in_meta(img, g)) is Some,
        0 <= i < img.relation(img.first_pp(relation)->0->0 as int).collect(
            in_meta(img, g),
        )->0.len(),
    ensures
        row_of(img, relation, rec),
        g(rec) == Some(
            img.relation(img.first_pp(relation)->0->0 as int).collect(in_meta(img, g))->0[i],
        ),
{
    let sc = img.relation(img.first_pp(relation)->0->0 as int);
    let k = lemma_collected_from(sc, in_meta(img, g), i);
    assert(sc.recs.contains(sc.recs[k]));
    img.unpack_meta(sc.recs[k])->0->0
}

proof fn lemma_listed_row<T>(
    img: Image,
    relation: int,
    g: spec_fn(Seq<u8>) -> Option<T>,
    rec: Seq<u8>,
)
    requires
        row_of(img, relation, rec),
        g(rec) is Some,
        img.relation(img.first_pp(relation)->0->0 as int).collect(in_meta(img, g)) is Some,
    ensures
        img.relation(img.first_pp(relation)->0->0 as int).collect(in_meta(img, g))->0.contains(
            g(rec)->0,
        ),
{
    let sc = img.relation(img.first_pp(relation)->0->0 as int);
    let raw = choose|raw: Seq<u8>|
        #[trigger] sc.recs.contains(raw) && img.unpack_meta(raw) == Some(Some(rec));
    let k = choose|k: int| 0 <= k < sc.recs.len() && sc.recs[k] == raw;
    lemma_collected(sc, in_meta(img, g), k, g(rec)->0);
}

// ── Tables ───────────────────────────────────────────────────────────────────

/// Whether a row of `RDB$RELATIONS` is that of a user table with this name: it has a name and
/// no view source, and its system flag is 0.
pub open spec fn is_user_table(img: Image, rec: Seq<u8>, name: Seq<char>) -> bool {
    let width: int = if img.ods_ver >= 13 {
        252
    } else {
        63
    };
    &&& rec.len() >= 42 + width
    &&& rec[0] % 2 == 1
    &&& rec[1] % 2 == 0
    &&& rec[34] == 0 && rec[35] == 0
    &&& name.len() > 0
    &&& name == trimmed(trimmed_end(text_at(rec, 42, width), Pad::Nul))
}

/// The tables that are listed are the user tables: every name stands in a row with a system
/// flag of 0 and without a view source, and the name of every such row is listed.
pub proof fn law_user_tables_are_listed(img: Image, name: Seq<char>)
    requires
        img.tables() is Some,
    ensures
        img.tables()->0.contains(name) <==> exists|rec: Seq<u8>| #[trigger]
            row_of(img, 6, rec) && is_user_table(img, rec, name),
{
    let g = table_in(img.name_len());
    let all = img.tables()->0;
    if all.contains(name) {
        let i = choose|i: int| 0 <= i < all.len() && all[i] == name;
        let rec = lemma_row_listed(img, 6, g, i);
        assert(row_of(img, 6, rec) && is_user_table(img, rec, name));
    }
    if exists|rec: Seq<u8>| #[trigger] row_of(img, 6, rec) && is_user_table(img, rec, name) {
        let rec = choose|rec: Seq<u8>| #[trigger]
            row_of(img, 6, rec) && is_user_table(img, rec, name);
        lemma_listed_row(img, 6, g, rec);
    }
}

/// A row with a system flag, or of a view, gives no name.
pub proof fn law_system_tables_are_not_listed(img: Image, rec: Seq<u8>)
    requires
        rec.len() >= 36,
        rec[34] != 0 || rec[35] != 0 || rec[0] % 2 == 0,
    ensures
        table_in(img.name_len())(rec) is None,
{
}

/// A table is the first row of `RDB$RELATIONS` with its name, in large or small letters, and
/// has the number that stands there.
pub proof fn law_relation_has_its_number(img: Image, table: Seq<char>)
    requires
        img.relation_id(table) is Some,
    ensures
        match img.relation_id(table)->0 {
            Ok(id) => exists|k: int, rec: Seq<u8>|
                {
                    &&& #[trigger] row_at(img, 6, k, rec)
                    &&& is_named_relation(img, rec, uppercase(table))
                    &&& id == little_endian(rec.subrange(32, 34))
                    &&& forall|i: int, other: Seq<u8>|
                        i < k && #[trigger] row_at(img, 6, i, other) ==> !is_named_relation(
                            img,
                            other,
                            uppercase(table),
                        )
                },
            Err(_) => forall|rec: Seq<u8>| #[trigger]
                row_of(img, 6, rec) ==> !is_named_relation(img, rec, uppercase(table)),
        },
{
    if img.first_pp(6)->0 is Some {
        let sc = img.relation(img.first_pp(6)->0->0 as int);
        let g = relation_id_in(img.name_len(), uppercase(table));
        let f = in_meta(img, g);
        let k = lemma_found(sc, f);
        if img.relation_id(table)->0 is Ok {
            let rec = img.unpack_meta(sc.recs[k])->0->0;
            assert(sc.recs.contains(sc.recs[k]));
            lemma_little2(rec, 32);
            assert forall|i: int, other: Seq<u8>|
                i < k && #[trigger] row_at(img, 6, i, other) implies !is_named_relation(
                img,
                other,
                uppercase(table),
            ) by {
                assert(f(sc.recs[i]) == Some(None::<u16>));
            }
            assert(row_at(img, 6, k, rec));
        } else {
            assert forall|rec: Seq<u8>| #[trigger] row_of(img, 6, rec) implies !is_named_relation(
                img,
                rec,
                uppercase(table),
            ) by {
                let raw = choose|raw: Seq<u8>|
                    #[trigger] sc.recs.contains(raw) && img.unpack_meta(raw) == Some(Some(rec));
                let j = choose|j: int| 0 <= j < sc.recs.len() && sc.recs[j] == raw;
                assert(f(sc.recs[j]) == Some(None::<u16>));
            }
        }
    }
}

/// Whether a row of `RDB$RELATIONS` has this name.
pub open spec fn is_named_relation(img: Image, rec: Seq<u8>, name: Seq<char>) -> bool {
    let width: int = if img.ods_ver >= 13 {
        252
    } else {
        63
    };
    &&& rec.len() >= 42 + width
    &&& rec[1] % 2 == 0
    &&& eq_ascii_fold(trimmed_end(text_at(rec, 42, width), Pad::White), name)
}

// ── Columns ──────────────────────────────────────────────────────────────────

/// Whether a row of `RDB$RELATION_FIELDS` is that of a column: neither of its names is NULL,
/// it belongs to the table, and it has this position, field number and name. Without a
/// position it has the field number in its place.
pub open spec fn is_column(
    img: Image,
    rec: Seq<u8>,
    table: Seq<char>,
    pos: int,
    fid: usize,
    name: Seq<char>,
) -> bool {
    let width: int = if img.ods_ver >= 13 {
        252
    } else {
        63
    };
    let at: int = if img.ods_ver >= 13 {
        1394
    } else {
        450
    };
    let number = signed(rec[at + 16] + 0x100 * rec[at + 17], 16);
    &&& rec.len() >= at + 18
    &&& rec[0] % 4 == 0
    &&& name.len() > 0
    &&& name == trimmed(trimmed_end(text_at(rec, 4, width), Pad::Nul))
    &&& uppercase(trimmed(trimmed_end(text_at(rec, 4 + width, width), Pad::Nul))) == uppercase(
        table,
    )
    &&& fid == (number as i16) as usize
    &&& pos == if rec[0] / 64 % 2 == 1 {
        number
    } else {
        signed(rec[at] + 0x100 * rec[at + 1], 16)
    }
}

/// Whether some row of `RDB$RELATION_FIELDS` is that of this column, at this position.
pub open spec fn is_some_column(
    img: Image,
    table: Seq<char>,
    pos: int,
    col: (usize, Seq<char>),
) -> bool {
    exists|rec: Seq<u8>| #[trigger]
        row_of(img, 5, rec) && is_column(img, rec, table, pos, col.0, col.1)
}

/// The columns of a table are those that the rows of `RDB$RELATION_FIELDS` give it, all of
/// them, and their positions do not decrease.
pub proof fn law_columns_stand_by_position(
    img: Image,
    relation_id: u16,
    table: Seq<char>,
    cols: Seq<(usize, Seq<char>)>,
) -> (positions: Seq<i16>)
    requires
        img.columns(relation_id, table) == Some(
            Ok::<Seq<(usize, Seq<char>)>, crate::ods::OdsError>(cols),
        ),
    ensures
        positions.len() == cols.len(),
        cols.len() > 0,
        forall|i: int, j: int| 0 <= i < j < cols.len() ==> positions[i] <= positions[j],
        forall|i: int|
            0 <= i < cols.len() ==> is_some_column(
                img,
                table,
                positions[i] as int,
                #[trigger] cols[i],
            ),
        forall|rec: Seq<u8>, pos: int, fid: usize, name: Seq<char>| #[trigger]
            row_of(img, 5, rec) && #[trigger] is_column(img, rec, table, pos, fid, name)
                ==> cols.contains((fid, name)),
{
    let sc = img.relation(img.first_pp(5)->0->0 as int);
    let g = column_in(img.name_len(), table);
    let s = sc.collect(in_meta(img, g))->0;
    let o = ordered(s);
    lemma_ordered(s);
    let positions = o.map_values(|e: (i16, (usize, Seq<char>))| e.0);
    assert(cols == values(o));
    o.to_multiset_ensures();
    s.to_multiset_ensures();
    assert(o.len() == s.len());
    assert forall|i: int|
        0 <= i < cols.len() implies is_some_column(
        img,
        table,
        positions[i] as int,
        #[trigger] cols[i],
    ) by {
        assert(o.contains(o[i]));
        assert(s.to_multiset().contains(o[i]));
        assert(s.contains(o[i]));
        let k = choose|k: int| 0 <= k < s.len() && s[k] == o[i];
        let rec = lemma_row_listed(img, 5, g, k);
        lemma_low_bits(rec[0]);
        assert(row_of(img, 5, rec));
    }
    assert forall|rec: Seq<u8>, pos: int, fid: usize, name: Seq<char>| #[trigger]
        row_of(img, 5, rec) && #[trigger] is_column(
            img,
            rec,
            table,
            pos,
            fid,
            name,
        ) implies cols.contains((fid, name)) by {
        lemma_low_bits(rec[0]);
        lemma_listed_row(img, 5, g, rec);
        let x = g(rec)->0;
        assert(s.to_multiset().contains(x));
        assert(o.to_multiset().contains(x));
        assert(o.contains(x));
        let k = choose|k: int| 0 <= k < o.len() && o[k] == x;
        assert(cols[k] == (fid, name));
    }
    positions
}

proof fn lemma_low_bits(b: u8)
    ensures
        b % 4 == 0 <==> b / 2 % 2 == 0 && b % 2 == 0,
{
}

/// Ordering by position keeps what has the same position in its order.
pub proof fn law_ordering_is_stable<T>(s: Seq<(i16, T)>, p: i16)
    ensures
        ordered(s).filter(|e: (i16, T)| e.0 == p) == s.filter(|e: (i16, T)| e.0 == p),
    decreases s.len(),
{
    reveal(Seq::filter);
    if s.len() > 0 {
        law_ordering_is_stable(s.drop_last(), p);
        lemma_ordered(s.drop_last());
        lemma_insert_stable(ordered(s.drop_last()), s.last(), p);
    }
}

proof fn lemma_insert_stable<T>(s: Seq<(i16, T)>, x: (i16, T), p: i16)
    requires
        forall|i: int, j: int| 0 <= i < j < s.len() ==> s[i].0 <= s[j].0,
    ensures
        insert_ordered(s, x).filter(|e: (i16, T)| e.0 == p) == (if x.0 == p {
            s.filter(|e: (i16, T)| e.0 == p).push(x)
        } else {
            s.filter(|e: (i16, T)| e.0 == p)
        }),
    decreases s.len(),
{
    reveal(Seq::filter);
    let keep = |e: (i16, T)| e.0 == p;
    let r = insert_ordered(s, x);
    if s.len() > 0 && s.last().0 > x.0 {
        let t = s.drop_last();
        lemma_insert_stable(t, x, p);
        let q = insert_ordered(t, x);
        assert(r.drop_last() =~= q);
        assert(r.last() == s.last());
        if x.0 == p {
            assert(s.last().0 != p);
        }
        assert(r.filter(keep) == if keep(s.last()) {
            q.filter(keep).push(s.last())
        } else {
            q.filter(keep)
        });
    } else {
        assert(r.drop_last() =~= s);
        assert(r.last() == x);
    }
}

// ── Keys ─────────────────────────────────────────────────────────────────────

/// Whether a row of `RDB$RELATION_CONSTRAINTS` is the primary key of the table, with this
/// index.
pub open spec fn is_primary_key(
    img: Image,
    rec: Seq<u8>,
    table: Seq<char>,
    index: Seq<char>,
) -> bool {
    let width: int = if img.ods_ver >= 13 {
        252
    } else {
        63
    };
    &&& rec.len() >= 21 + 3 * width
    &&& eq_ascii_fold(trimmed(text_at(rec, 4 + width, 11)), "PRIMARY KEY"@)
    &&& eq_ascii_fold(
        trimmed_end(text_at(rec, 4 + width + 11, width), Pad::NulOrSpace),
        uppercase(table),
    )
    &&& index == trimmed_end(text_at(rec, 4 + width + 11 + width + 6, width), Pad::NulOrSpace)
}

/// The index of the primary key is the one that the first PRIMARY KEY constraint of the table names;
/// there is none exactly where the table has no such constraint.
pub proof fn law_primary_key_has_its_index(img: Image, table: Seq<char>)
    requires
        img.pk_index(table) is Some,
    ensures
        match img.pk_index(table)->0 {
            Ok(index) => exists|k: int, rec: Seq<u8>|
                {
                    &&& #[trigger] row_at(img, 22, k, rec)
                    &&& is_primary_key(img, rec, table, index)
                    &&& forall|i: int, rec2: Seq<u8>, index2: Seq<char>|
                        i < k && #[trigger] row_at(img, 22, i, rec2)
                            ==> !#[trigger] is_primary_key(img, rec2, table, index2)
                },
            Err(_) => forall|rec: Seq<u8>, index: Seq<char>| #[trigger]
                row_of(img, 22, rec) ==> !#[trigger] is_primary_key(img, rec, table, index),
        },
{
    if img.first_pp(22)->0 is Some {
        let sc = img.relation(img.first_pp(22)->0->0 as int);
        let g = pk_index_in(img.name_len(), uppercase(table));
        let f = in_meta(img, g);
        let k = lemma_found(sc, f);
        if img.pk_index(table)->0 is Ok {
            let rec = img.unpack_meta(sc.recs[k])->0->0;
            assert(sc.recs.contains(sc.recs[k]));
            assert forall|i: int, rec2: Seq<u8>, index2: Seq<char>|
                i < k && #[trigger] row_at(
                    img,
                    22,
                    i,
                    rec2,
                ) implies !#[trigger] is_primary_key(img, rec2, table, index2) by {
                assert(f(sc.recs[i]) == Some(None::<Seq<char>>));
            }
            assert(row_at(img, 22, k, rec));
        } else {
            assert forall|rec: Seq<u8>, index: Seq<char>| #[trigger]
                row_of(img, 22, rec) implies !#[trigger] is_primary_key(
                img,
                rec,
                table,
                index,
            ) by {
                let raw = choose|raw: Seq<u8>|
                    #[trigger] sc.recs.contains(raw) && img.unpack_meta(raw) == Some(Some(rec));
                let j = choose|j: int| 0 <= j < sc.recs.len() && sc.recs[j] == raw;
                assert(f(sc.recs[j]) == Some(None::<Seq<char>>));
            }
        }
    }
}

/// Whether a row of `RDB$INDEX_SEGMENTS` is a segment of the index, over this column.
pub open spec fn is_segment(img: Image, rec: Seq<u8>, index: Seq<char>, column: Seq<char>) -> bool {
    let width: int = if img.ods_ver >= 13 {
        252
    } else {
        63
    };
    &&& rec.len() >= 4 + 2 * width
    &&& eq_ascii_fold(trimmed_end(text_at(rec, 4, width), Pad::NulOrSpace), uppercase(index))
    &&& column == trimmed_end(text_at(rec, 4 + width, width), Pad::NulOrSpace)
}

/// The position that a row of `RDB$INDEX_SEGMENTS` gives its column.
pub open spec fn segment_position(img: Image, rec: Seq<u8>) -> int {
    let at: int = if img.ods_ver >= 13 {
        508
    } else {
        130
    };
    signed(rec[at] + 0x100 * rec[at + 1], 16)
}

/// Whether some row of `RDB$INDEX_SEGMENTS` has this column in the index, at this position.
pub open spec fn is_some_segment(
    img: Image,
    index: Seq<char>,
    pos: int,
    column: Seq<char>,
) -> bool {
    exists|rec: Seq<u8>| #[trigger]
        row_of(img, 3, rec) && is_segment(img, rec, index, column) && segment_position(img, rec)
            == pos
}

/// The columns of an index are those of its segments, all of them, and their positions do not
/// decrease.
pub proof fn law_index_columns_stand_by_position(
    img: Image,
    index: Seq<char>,
    cols: Seq<Seq<char>>,
) -> (positions: Seq<i16>)
    requires
        img.index_columns(index) == Some(Ok::<Seq<Seq<char>>, crate::ods::OdsError>(cols)),
        forall|rec: Seq<u8>| #[trigger]
            row_of(img, 3, rec) ==> rec.len() >= if img.ods_ver >= 13 {
                510int
            } else {
                132
            },
    ensures
        positions.len() == cols.len(),
        cols.len() > 0,
        forall|i: int, j: int| 0 <= i < j < cols.len() ==> positions[i] <= positions[j],
        forall|i: int|
            0 <= i < cols.len() ==> is_some_segment(
                img,
                index,
                positions[i] as int,
                #[trigger] cols[i],
            ),
        forall|rec: Seq<u8>, column: Seq<char>| #[trigger]
            row_of(img, 3, rec) && #[trigger] is_segment(img, rec, index, column)
                ==> cols.contains(column),
{
    let sc = img.relation(img.first_pp(3)->0->0 as int);
    let g = segment_in(img.name_len(), uppercase(index));
    let s = sc.collect(in_meta(img, g))->0;
    let q = placed(s);
    let o = ordered(q);
    lemma_ordered(q);
    let positions = o.map_values(|e: (i16, Seq<char>)| e.0);
    assert(cols == values(o));
    o.to_multiset_ensures();
    q.to_multiset_ensures();
    assert(o.len() == q.len());
    assert forall|i: int|
        0 <= i < cols.len() implies is_some_segment(
        img,
        index,
        positions[i] as int,
        #[trigger] cols[i],
    ) by {
        assert(o.contains(o[i]));
        assert(q.to_multiset().contains(o[i]));
        assert(q.contains(o[i]));
        let k = choose|k: int| 0 <= k < q.len() && q[k] == o[i];
        let rec = lemma_row_listed(img, 3, g, k);
        assert(row_of(img, 3, rec));
    }
    assert forall|rec: Seq<u8>, column: Seq<char>| #[trigger]
        row_of(img, 3, rec) && #[trigger] is_segment(img, rec, index, column) implies cols.contains(
        column,
    ) by {
        lemma_listed_row(img, 3, g, rec);
        let x = g(rec)->0;
        let m = choose|m: int| 0 <= m < s.len() && s[m] == x;
        assert(q[m].1 == column);
        assert(q.contains(q[m]));
        assert(o.to_multiset().contains(q[m]));
        assert(o.contains(q[m]));
        let k = choose|k: int| 0 <= k < o.len() && o[k] == q[m];
        assert(cols[k] == column);
    }
    positions
}

/// The constraints of a table are the kinds that its rows of `RDB$RELATION_CONSTRAINTS` name.
pub proof fn law_constraints_are_listed(img: Image, table: Seq<char>, kind: Seq<char>)
    requires
        img.constraints(table) is Some,
    ensures
        img.constraints(table)->0.contains(kind) <==> exists|rec: Seq<u8>| #[trigger]
            row_of(img, 22, rec) && is_constraint(img, rec, table, kind),
{
    let g = constraint_in(img.name_len(), uppercase(table));
    let all = img.constraints(table)->0;
    if all.contains(kind) {
        let i = choose|i: int| 0 <= i < all.len() && all[i] == kind;
        let rec = lemma_row_listed(img, 22, g, i);
        assert(row_of(img, 22, rec) && is_constraint(img, rec, table, kind));
    }
    if exists|rec: Seq<u8>| #[trigger]
        row_of(img, 22, rec) && is_constraint(img, rec, table, kind) {
        let rec = choose|rec: Seq<u8>| #[trigger]
            row_of(img, 22, rec) && is_constraint(img, rec, table, kind);
        lemma_listed_row(img, 22, g, rec);
    }
}

/// Whether a row of `RDB$RELATION_CONSTRAINTS` is one of the table, of this kind.
pub open spec fn is_constraint(
    img: Image,
    rec: Seq<u8>,
    table: Seq<char>,
    kind: Seq<char>,
) -> bool {
    let width: int = if img.ods_ver >= 13 {
        252
    } else {
        63
    };
    &&& rec.len() >= 4 + width + 11 + width
    &&& kind == trimmed(text_at(rec, 4 + width, 11))
    &&& eq_ascii_fold(
        trimmed_end(text_at(rec, 4 + width + 11, width), Pad::NulOrSpace),
        uppercase(table),
    )
}

// ── Lists ────────────────────────────────────────────────────────────────────

/// Whether a list of bytes stands before another in a dictionary, or is the same.
pub open spec fn precedes(a: Seq<u8>, b: Seq<u8>) -> bool {
    exists|k: int| #[trigger] differs_at(a, b, k)
}

/// Whether two lists of bytes are the same up to a place, and there the first has ended or has
/// the smaller byte.
pub open spec fn differs_at(a: Seq<u8>, b: Seq<u8>, k: int) -> bool {
    &&& 0 <= k <= a.len()
    &&& k <= b.len()
    &&& forall|i: int| 0 <= i < k ==> a[i] == b[i]
    &&& k == a.len() || (k < b.len() && a[k] < b[k])
}

/// Texts are ordered by their bytes, as in a dictionary.
pub proof fn law_byte_order(a: Seq<u8>, b: Seq<u8>)
    ensures
        bytes_le(a, b) <==> precedes(a, b),
    decreases a.len(),
{
    if a.len() == 0 {
        assert(differs_at(a, b, 0));
    } else if b.len() > 0 {
        let s = a.skip(1);
        let t = b.skip(1);
        law_byte_order(s, t);
        if bytes_le(a, b) {
            if a[0] < b[0] {
                assert(differs_at(a, b, 0));
            } else {
                let k = choose|k: int| #[trigger] differs_at(s, t, k);
                assert forall|i: int| 0 <= i < k + 1 implies a[i] == b[i] by {
                    if i > 0 {
                        assert(s[i - 1] == t[i - 1]);
                    }
                }
                if k < s.len() {
                    assert(s[k] == a[k + 1] && t[k] == b[k + 1]);
                }
                assert(differs_at(a, b, k + 1));
            }
        }
        if precedes(a, b) {
            let k = choose|k: int| #[trigger] differs_at(a, b, k);
            if k > 0 {
                assert(a[0] == b[0]);
                assert forall|i: int| 0 <= i < k - 1 implies s[i] == t[i] by {
                    assert(a[i + 1] == b[i + 1]);
                }
                if k < a.len() {
                    assert(s[k - 1] == a[k] && t[k - 1] == b[k]);
                }
                assert(differs_at(s, t, k - 1));
            }
        }
    } else {
        if precedes(a, b) {
            let k = choose|k: int| #[trigger] differs_at(a, b, k);
            assert(k == 0);
        }
    }
}

/// The list of tables is that of the user tables: as long as there are such rows, with every
/// name that stands in one and no other, in the order of a dictionary.
pub proof fn law_list_is_that_of_the_user_tables(db: &OdsReader, r: Vec<String>, name: Seq<char>)
    requires
        db.wf(),
        db@.tables() is Some,
        call_ensures(OdsReader::list_tables, (db,), r),
    ensures
        texts(r@).contains(name) <==> exists|rec: Seq<u8>| #[trigger]
            row_of(db@, 6, rec) && is_user_table(db@, rec, name),
        r@.len() == db@.tables()->0.len(),
        forall|i: int, j: int|
            0 <= i < j < r@.len() ==> precedes(
                encode_utf8((#[trigger] r@[i])@),
                encode_utf8((#[trigger] r@[j])@),
            ),
{
    let all = db@.tables()->0;
    let names = texts(r@);
    law_user_tables_are_listed(db@, name);
    names.to_multiset_ensures();
    all.to_multiset_ensures();
    assert(names.contains(name) <==> names.to_multiset().contains(name));
    assert(all.contains(name) <==> all.to_multiset().contains(name));
    assert forall|i: int, j: int| 0 <= i < j < r@.len() implies precedes(
        encode_utf8((#[trigger] r@[i])@),
        encode_utf8((#[trigger] r@[j])@),
    ) by {
        assert(names[i] == r@[i]@ && names[j] == r@[j]@);
        law_byte_order(encode_utf8(names[i]), encode_utf8(names[j]));
    }
}

} // verus!
