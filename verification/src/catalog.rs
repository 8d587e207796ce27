//! The system relations: tables, columns, constraints and indexes.
//!
//! System relations have no entry in RDB$FORMATS; the offsets of their fields follow from
//! the length of a name, which is 63 bytes up to version 12 and 252 bytes since.
use crate::bytes::{bytes_le, get_u16, le16, signed, to_i16};
use crate::ods::{behind, lemma_collect_step, Image, OdsError, OdsReader, SlotCursor};
use crate::text::{
    eq_ascii_fold, eq_ignore_ascii_case, same_text, text_or_empty, texts, to_uppercase, trim,
    trim_end, trimmed, trimmed_end, uppercase, utf8_or_empty, Pad,
};
use vstd::prelude::*;
use vstd::slice::slice_subrange;
use vstd::utf8::encode_utf8;

verus! {

// ── Orders ───────────────────────────────────────────────────────────────────

/// Whether a list of texts is in the order of their bytes.
pub open spec fn in_byte_order(v: Seq<Seq<char>>) -> bool {
    forall|i: int, j: int|
        0 <= i < j < v.len() ==> bytes_le(#[trigger] encode_utf8(v[i]), #[trigger] encode_utf8(
            v[j],
        ))
}

/// `sort` of the standard library's slices, on strings: the same strings, ordered by
/// their bytes.
#[verifier::external_body]
fn sort_strings(v: &mut Vec<String>)
    ensures
        texts(final(v)@).to_multiset() == texts(old(v)@).to_multiset(),
        in_byte_order(texts(final(v)@)),
{
    v.sort();
}

/// `x` put into a list that is ordered by position, behind everything that is not
/// greater.
pub open spec fn insert_ordered<T>(s: Seq<(i16, T)>, x: (i16, T)) -> Seq<(i16, T)>
    decreases s.len(),
{
    if s.len() > 0 && s.last().0 > x.0 {
        insert_ordered(s.drop_last(), x).push(s.last())
    } else {
        s.push(x)
    }
}

/// A list ordered by position; entries with the same position keep their order.
pub open spec fn ordered<T>(s: Seq<(i16, T)>) -> Seq<(i16, T)>
    decreases s.len(),
{
    if s.len() == 0 {
        s
    } else {
        insert_ordered(ordered(s.drop_last()), s.last())
    }
}

/// The entries without their positions.
pub open spec fn values<T>(s: Seq<(i16, T)>) -> Seq<T> {
    s.map_values(|e: (i16, T)| e.1)
}

/// Ordering a list leaves no entry before one with a smaller position.
pub proof fn lemma_ordered<T>(s: Seq<(i16, T)>)
    ensures
        forall|i: int, j: int|
            0 <= i < j < ordered(s).len() ==> ordered(s)[i].0 <= ordered(s)[j].0,
        ordered(s).to_multiset() == s.to_multiset(),
    decreases s.len(),
{
    if s.len() > 0 {
        lemma_ordered(s.drop_last());
        lemma_insert_ordered(ordered(s.drop_last()), s.last());
        assert(s.drop_last().push(s.last()) =~= s);
        s.drop_last().to_multiset_ensures();
    }
}

proof fn lemma_insert_ordered<T>(s: Seq<(i16, T)>, x: (i16, T))
    requires
        forall|i: int, j: int| 0 <= i < j < s.len() ==> s[i].0 <= s[j].0,
    ensures
        forall|i: int, j: int|
            0 <= i < j < insert_ordered(s, x).len() ==> insert_ordered(s, x)[i].0
                <= insert_ordered(s, x)[j].0,
        insert_ordered(s, x).to_multiset() == s.to_multiset().insert(x),
        forall|i: int|
            0 <= i < insert_ordered(s, x).len() ==> insert_ordered(s, x)[i] == x || s.contains(
                #[trigger] insert_ordered(s, x)[i],
            ),
    decreases s.len(),
{
    if s.len() > 0 && s.last().0 > x.0 {
        let t = s.drop_last();
        lemma_insert_ordered(t, x);
        let r = insert_ordered(t, x);
        assert forall|i: int| 0 <= i < r.len() implies r[i].0 <= s.last().0 by {
            if r[i] != x {
                let k = choose|k: int| 0 <= k < t.len() && t[k] == r[i];
                assert(s[k] == t[k]);
            }
        }
        assert forall|i: int| 0 <= i < insert_ordered(s, x).len() implies insert_ordered(s, x)[i]
            == x || s.contains(#[trigger] insert_ordered(s, x)[i]) by {
            if i < r.len() {
                if r[i] != x {
                    let k = choose|k: int| 0 <= k < t.len() && t[k] == r[i];
                    assert(s[k] == r[i]);
                }
            } else {
                assert(s[s.len() - 1] == s.last());
            }
        }
        r.to_multiset_ensures();
        t.to_multiset_ensures();
        assert(t.push(s.last()) =~= s);
        assert(t.to_multiset().insert(x).insert(s.last()) =~= t.to_multiset().insert(
            s.last(),
        ).insert(x));
    } else {
        s.to_multiset_ensures();
        assert forall|i: int| 0 <= i < s.push(x).len() implies s.push(x)[i] == x || s.contains(
            #[trigger] s.push(x)[i],
        ) by {
            if i < s.len() {
                assert(s[i] == s.push(x)[i]);
            }
        }
    }
}

/// Where `x` goes in an ordered list: the result is the list up to there, `x`, and the
/// rest.
proof fn lemma_insert_at<T>(s: Seq<(i16, T)>, x: (i16, T), k: int)
    requires
        0 <= k <= s.len(),
        forall|i: int| k <= i < s.len() ==> s[i].0 > x.0,
        k > 0 ==> s[k - 1].0 <= x.0,
    ensures
        insert_ordered(s, x) == s.insert(k, x),
    decreases s.len(),
{
    if k < s.len() {
        lemma_insert_at(s.drop_last(), x, k);
        assert(s.insert(k, x) =~= s.drop_last().insert(k, x).push(s.last()));
    } else {
        assert(s.insert(k, x) =~= s.push(x));
    }
}

// ── Field layouts ────────────────────────────────────────────────────────────

impl Image {
    /// The length of a name.
    pub open spec fn name_len(self) -> int {
        if self.ods_ver >= 13 {
            252
        } else {
            63
        }
    }
}

/// What `g` finds in the data of a record of a system relation.
pub open spec fn in_meta<T>(img: Image, g: spec_fn(Seq<u8>) -> Option<T>) -> spec_fn(
    Seq<u8>,
) -> Option<Option<T>> {
    |raw: Seq<u8>|
        match img.unpack_meta(raw) {
            None => None,
            Some(None) => Some(None),
            Some(Some(rec)) => Some(g(rec)),
        }
}

/// The text in `rec[off..off + len]`.
pub open spec fn text_at(rec: Seq<u8>, off: int, len: int) -> Seq<char> {
    text_or_empty(rec.subrange(off, off + len))
}

/// The id that a record of RDB$RELATIONS gives to the table `target`: id at 32, name at
/// 42. Bit 0 of byte 1 marks a missing name.
pub open spec fn relation_id_in(nl: int, target: Seq<char>) -> spec_fn(Seq<u8>) -> Option<u16> {
    |rec: Seq<u8>|
        if rec.len() >= 42 + nl && rec[1] % 2 == 0 && eq_ascii_fold(
            trimmed_end(text_at(rec, 42, nl), Pad::White),
            target,
        ) {
            Some(le16(rec, 32) as u16)
        } else {
            None
        }
}

/// The name of the user table that a record of RDB$RELATIONS describes: system flag at
/// 34, name at 42. A view has its source (bit 0 of byte 0 is clear) and is no table.
pub open spec fn table_in(nl: int) -> spec_fn(Seq<u8>) -> Option<Seq<char>> {
    |rec: Seq<u8>|
        {
            let name = trimmed(trimmed_end(text_at(rec, 42, nl), Pad::Nul));
            if rec.len() >= 42 + nl && rec[1] % 2 == 0 && rec[0] % 2 == 1 && le16(rec, 34) == 0
                && name.len() > 0 {
                Some(name)
            } else {
                None
            }
        }
}

/// Where a record of RDB$RELATION_FIELDS holds the position of the column.
pub open spec fn column_pos_off(nl: int) -> int {
    if nl == 252 {
        1394
    } else {
        450
    }
}

/// Where a record of RDB$RELATION_FIELDS holds the id of the field.
pub open spec fn column_id_off(nl: int) -> int {
    if nl == 252 {
        1410
    } else {
        466
    }
}

/// The position, field id and name of the column of `table` that a record of
/// RDB$RELATION_FIELDS describes: column name at 4, table name behind it. Byte 0 marks a
/// missing column name (bit 0), table name (bit 1) or position (bit 6); the field id
/// stands in for a missing position.
pub open spec fn column_in(nl: int, table: Seq<char>) -> spec_fn(Seq<u8>) -> Option<
    (i16, (usize, Seq<char>)),
> {
    |rec: Seq<u8>|
        {
            let name = trimmed(trimmed_end(text_at(rec, 4, nl), Pad::Nul));
            let of_table = trimmed(trimmed_end(text_at(rec, 4 + nl, nl), Pad::Nul));
            let id = signed(le16(rec, column_id_off(nl)), 16) as i16;
            if rec.len() >= column_id_off(nl) + 2 && rec[0] / 2 % 2 == 0 && rec[0] % 2 == 0
                && uppercase(of_table) == uppercase(table) && name.len() > 0 {
                Some(
                    (
                        if rec[0] / 64 % 2 == 0 {
                            signed(le16(rec, column_pos_off(nl)), 16) as i16
                        } else {
                            id
                        },
                        (id as usize, name),
                    ),
                )
            } else {
                None
            }
        }
}

/// The type of the constraint that a record of RDB$RELATION_CONSTRAINTS describes, if it
/// is one of the table `target`. The fields are: constraint name at 4, type (11 bytes),
/// table name, two flags of 3 bytes, index name.
pub open spec fn constraint_in(nl: int, target: Seq<char>) -> spec_fn(Seq<u8>) -> Option<
    Seq<char>,
> {
    |rec: Seq<u8>|
        if rec.len() >= 15 + 2 * nl && eq_ascii_fold(
            trimmed_end(text_at(rec, 15 + nl, nl), Pad::NulOrSpace),
            target,
        ) {
            Some(trimmed(text_at(rec, 4 + nl, 11)))
        } else {
            None
        }
}

/// The index behind the primary key of the table `target`, if the record of
/// RDB$RELATION_CONSTRAINTS describes it.
pub open spec fn pk_index_in(nl: int, target: Seq<char>) -> spec_fn(Seq<u8>) -> Option<Seq<char>> {
    |rec: Seq<u8>|
        if rec.len() >= 21 + 3 * nl && eq_ascii_fold(
            trimmed(text_at(rec, 4 + nl, 11)),
            "PRIMARY KEY"@,
        ) && eq_ascii_fold(
            trimmed_end(text_at(rec, 15 + nl, nl), Pad::NulOrSpace),
            target,
        ) {
            Some(trimmed_end(text_at(rec, 21 + 2 * nl, nl), Pad::NulOrSpace))
        } else {
            None
        }
}

/// The column of the index `target` that a record of RDB$INDEX_SEGMENTS describes, and
/// its position where there is one: index name at 4, column name, position.
pub open spec fn segment_in(nl: int, target: Seq<char>) -> spec_fn(Seq<u8>) -> Option<
    (Option<i16>, Seq<char>),
> {
    |rec: Seq<u8>|
        if rec.len() >= 4 + 2 * nl && eq_ascii_fold(
            trimmed_end(text_at(rec, 4, nl), Pad::NulOrSpace),
            target,
        ) {
            Some(
                (
                    if rec.len() >= 6 + 2 * nl {
                        Some(signed(le16(rec, 4 + 2 * nl), 16) as i16)
                    } else {
                        None
                    },
                    trimmed_end(text_at(rec, 4 + nl, nl), Pad::NulOrSpace),
                ),
            )
        } else {
            None
        }
}

/// A count as a 16-bit position.
pub open spec fn count16(n: int) -> i16 {
    signed(n % 0x1_0000, 16) as i16
}

/// Index segments with their positions; one without a position takes its place in the
/// list.
pub open spec fn placed(s: Seq<(Option<i16>, Seq<char>)>) -> Seq<(i16, Seq<char>)> {
    Seq::new(
        s.len(),
        |i: int|
            (
                match s[i].0 {
                    Some(p) => p,
                    None => count16(i),
                },
                s[i].1,
            ),
    )
}

impl Image {
    /// The id of a table.
    pub open spec fn relation_id(self, table: Seq<char>) -> Option<Result<u16, OdsError>> {
        match self.first_pp(6) {
            None => None,
            Some(None) => Some(Err(OdsError::NoPointerPage(6))),
            Some(Some(pp)) => match self.relation(pp as int).find(
                in_meta(self, relation_id_in(self.name_len(), uppercase(table))),
            ) {
                None => None,
                Some(None) => Some(Err(OdsError::TableNotFound)),
                Some(Some(id)) => Some(Ok(id)),
            },
        }
    }

    /// The names of the user tables, in the order in which RDB$RELATIONS holds them.
    pub open spec fn tables(self) -> Option<Seq<Seq<char>>> {
        match self.first_pp(6) {
            None => None,
            Some(None) => Some(Seq::empty()),
            Some(Some(pp)) => self.relation(pp as int).collect(
                in_meta(self, table_in(self.name_len())),
            ),
        }
    }

    /// The columns of a table by position: field id and name.
    pub open spec fn columns(self, relation_id: u16, table: Seq<char>) -> Option<
        Result<Seq<(usize, Seq<char>)>, OdsError>,
    > {
        match self.first_pp(5) {
            None => None,
            Some(None) => Some(Err(OdsError::NoPointerPage(5))),
            Some(Some(pp)) => match self.relation(pp as int).collect(
                in_meta(self, column_in(self.name_len(), table)),
            ) {
                None => None,
                Some(s) => Some(
                    if s.len() == 0 {
                        Err(OdsError::NoFields(relation_id))
                    } else {
                        Ok(values(ordered(s)))
                    },
                ),
            },
        }
    }

    /// The types of the constraints of a table.
    pub open spec fn constraints(self, table: Seq<char>) -> Option<Seq<Seq<char>>> {
        match self.first_pp(22) {
            None => None,
            Some(None) => Some(Seq::empty()),
            Some(Some(pp)) => self.relation(pp as int).collect(
                in_meta(self, constraint_in(self.name_len(), uppercase(table))),
            ),
        }
    }

    /// The name of the index behind the primary key of a table.
    pub open spec fn pk_index(self, table: Seq<char>) -> Option<Result<Seq<char>, OdsError>> {
        match self.first_pp(22) {
            None => None,
            Some(None) => Some(Err(OdsError::NoPointerPage(22))),
            Some(Some(pp)) => match self.relation(pp as int).find(
                in_meta(self, pk_index_in(self.name_len(), uppercase(table))),
            ) {
                None => None,
                Some(None) => Some(Err(OdsError::NoPrimaryKey)),
                Some(Some(name)) => Some(Ok(name)),
            },
        }
    }

    /// The columns of an index by position.
    pub open spec fn index_columns(self, index: Seq<char>) -> Option<
        Result<Seq<Seq<char>>, OdsError>,
    > {
        match self.first_pp(3) {
            None => None,
            Some(None) => Some(Err(OdsError::NoPointerPage(3))),
            Some(Some(pp)) => match self.relation(pp as int).collect(
                in_meta(self, segment_in(self.name_len(), uppercase(index))),
            ) {
                None => None,
                Some(s) => Some(
                    if s.len() == 0 {
                        Err(OdsError::NoIndexSegments)
                    } else {
                        Ok(values(ordered(placed(s))))
                    },
                ),
            },
        }
    }

    /// The columns of the primary key of a table.
    pub open spec fn primary_key(self, table: Seq<char>) -> Option<
        Result<Seq<Seq<char>>, OdsError>,
    > {
        match self.pk_index(table) {
            None => None,
            Some(Err(e)) => Some(Err(e)),
            Some(Ok(index)) => self.index_columns(index),
        }
    }
}

// ── Views of results ─────────────────────────────────────────────────────────

/// The field id and the name of a column.
pub open spec fn column_view(c: (usize, String)) -> (usize, Seq<char>) {
    (c.0, c.1@)
}

/// The columns with the texts of their names.
pub open spec fn column_views(v: Seq<(usize, String)>) -> Seq<(usize, Seq<char>)> {
    v.map_values(|c: (usize, String)| column_view(c))
}

pub open spec fn columns_of(r: Result<Vec<(usize, String)>, OdsError>) -> Result<
    Seq<(usize, Seq<char>)>,
    OdsError,
> {
    match r {
        Ok(v) => Ok(column_views(v@)),
        Err(e) => Err(e),
    }
}

pub open spec fn text_of(r: Result<String, OdsError>) -> Result<Seq<char>, OdsError> {
    match r {
        Ok(s) => Ok(s@),
        Err(e) => Err(e),
    }
}

pub open spec fn texts_of(r: Result<Vec<String>, OdsError>) -> Result<Seq<Seq<char>>, OdsError> {
    match r {
        Ok(v) => Ok(texts(v@)),
        Err(e) => Err(e),
    }
}

// ── Reading ──────────────────────────────────────────────────────────────────

/// The text in `rec[off..off + len]`.
fn read_text(rec: &[u8], off: usize, len: usize) -> (r: &str)
    requires
        off + len <= rec@.len(),
    ensures
        r@ == text_at(rec@, off as int, len as int),
{
    assert(rec.len() <= usize::MAX);
    utf8_or_empty(slice_subrange(rec, off, off + len))
}

/// The name in `rec[off..off + len]` without trailing zeros and surrounding white space.
fn read_name(rec: &[u8], off: usize, len: usize) -> (r: &str)
    requires
        off + len <= rec@.len(),
    ensures
        r@ == trimmed(trimmed_end(text_at(rec@, off as int, len as int), Pad::Nul)),
{
    trim(trim_end(read_text(rec, off, len), Pad::Nul))
}

/// The name in `rec[off..off + len]` without trailing zeros and blanks.
fn read_padded(rec: &[u8], off: usize, len: usize) -> (r: &str)
    requires
        off + len <= rec@.len(),
    ensures
        r@ == trimmed_end(text_at(rec@, off as int, len as int), Pad::NulOrSpace),
{
    trim_end(read_text(rec, off, len), Pad::NulOrSpace)
}

/// A count as a 16-bit position.
fn count_as_i16(n: usize) -> (r: i16)
    ensures
        r == count16(n as int),
{
    to_i16((n as u64 % 0x1_0000) as u16)
}

/// A list ordered by position, with the texts of its names.
pub open spec fn column_entries(v: Seq<(i16, (usize, String))>) -> Seq<
    (i16, (usize, Seq<char>)),
> {
    v.map_values(|e: (i16, (usize, String))| (e.0, column_view(e.1)))
}

/// A list ordered by position, with the texts of its names.
pub open spec fn name_entries(v: Seq<(i16, String)>) -> Seq<(i16, Seq<char>)> {
    v.map_values(|e: (i16, String)| (e.0, e.1@))
}

fn insert_column(v: &mut Vec<(i16, (usize, String))>, x: (i16, (usize, String)))
    ensures
        column_entries(final(v)@) == insert_ordered(
            column_entries(old(v)@),
            (x.0, column_view(x.1)),
        ),
{
    let ghost y = (x.0, column_view(x.1));
    let ghost before = column_entries(v@);
    let mut k: usize = v.len();
    while k > 0 && v[k - 1].0 > x.0
        invariant
            k <= v@.len(),
            forall|i: int| k <= i < v@.len() ==> v@[i].0 > x.0,
        decreases k,
    {
        k = k - 1;
    }
    proof {
        lemma_insert_at(before, y, k as int);
    }
    v.insert(k, x);
    assert(column_entries(v@) =~= before.insert(k as int, y));
}

fn insert_name(v: &mut Vec<(i16, String)>, x: (i16, String))
    ensures
        name_entries(final(v)@) == insert_ordered(name_entries(old(v)@), (x.0, x.1@)),
{
    let ghost y = (x.0, x.1@);
    let ghost before = name_entries(v@);
    let mut k: usize = v.len();
    while k > 0 && v[k - 1].0 > x.0
        invariant
            k <= v@.len(),
            forall|i: int| k <= i < v@.len() ==> v@[i].0 > x.0,
        decreases k,
    {
        k = k - 1;
    }
    proof {
        lemma_insert_at(before, y, k as int);
    }
    v.insert(k, x);
    assert(name_entries(v@) =~= before.insert(k as int, y));
}

impl<'a> OdsReader<'a> {
    fn name_length(&self) -> (r: usize)
        ensures
            r == self@.name_len(),
    {
        if self.ods_ver >= 13 {
            252
        } else {
            63
        }
    }

    /// Looks up the id of a table in RDB$RELATIONS, as far as it can be read.
    pub fn try_relation_id(&self, table: &str) -> (r: Option<Result<u16, OdsError>>)
        requires
            self.wf(),
        ensures
            r == self@.relation_id(table@),
    {
        let pp: u32 = match self.try_first_pp(6) {
            Some(Some(pp)) => pp,
            Some(None) => {
                return Some(Err(OdsError::NoPointerPage(6)));
            },
            None => {
                return None;
            },
        };
        if self.try_data_pages(pp).is_none() {
            return None;
        }
        let target: String = to_uppercase(table);
        let nl: usize = self.name_length();
        let ghost g = relation_id_in(nl as int, target@);
        let ghost f = in_meta(self@, g);
        let ghost want = self@.relation(pp as int).find(f);
        let mut cur: SlotCursor = SlotCursor::new(self, pp);
        loop
            invariant
                cur.wf(),
                cur.db() == self@,
                self.wf(),
                nl == self@.name_len(),
                g == relation_id_in(nl as int, target@),
                f == in_meta(self@, g),
                want == cur.left().find(f),
                self@.relation_id(table@) == (match want {
                    None => None,
                    Some(None) => Some(Err(OdsError::TableNotFound)),
                    Some(Some(id)) => Some(Ok(id)),
                }),
            decreases cur.left().recs.len(),
        {
            match cur.try_next() {
                None => {
                    return None;
                },
                Some(None) => {
                    return Some(Err(OdsError::TableNotFound));
                },
                Some(Some(raw)) => {
                    if !self.record_fits(raw) {
                        return None;
                    }
                    if let Some(rec) = self.unpack_record_meta(raw) {
                        let rec: &[u8] = rec.as_slice();
                        if rec.len() >= 42 + nl && rec[1] % 2 == 0 {
                            let name: &str = trim_end(read_text(rec, 42, nl), Pad::White);
                            if eq_ignore_ascii_case(name, target.as_str()) {
                                return Some(Ok(get_u16(rec, 32)));
                            }
                        }
                    }
                },
            }
        }
    }

    /// Looks up the id of a table in RDB$RELATIONS.
    pub fn find_relation_id(&self, table: &str) -> (r: Result<u16, OdsError>)
        requires
            self.wf(),
            self@.relation_id(table@) is Some,
        ensures
            self@.relation_id(table@) == Some(r),
    {
        match self.try_relation_id(table) {
            Some(r) => r,
            None => Err(OdsError::TableNotFound),
        }
    }

    /// The names of all user tables in alphabetical order.
    pub fn list_tables(&self) -> (r: Vec<String>)
        requires
            self.wf(),
            self@.tables() is Some,
        ensures
            texts(r@).to_multiset() == self@.tables()->0.to_multiset(),
            in_byte_order(texts(r@)),
    {
        let mut tables: Vec<String> = Vec::new();
        assert(texts(tables@) =~= Seq::empty());
        let pp: u32 = match self.find_first_pp(6) {
            Some(pp) => pp,
            None => {
                return tables;
            },
        };
        let nl: usize = self.name_length();
        let ghost g = table_in(nl as int);
        let ghost f = in_meta(self@, g);
        let ghost all = self@.relation(pp as int).collect(f);
        let mut cur: SlotCursor = SlotCursor::new(self, pp);
        assert(texts(tables@) + all->0 =~= all->0);
        loop
            invariant_except_break
                cur.wf(),
                cur.db() == self@,
                self.wf(),
                nl == self@.name_len(),
                g == table_in(nl as int),
                f == in_meta(self@, g),
                cur.left().collect(f) is Some,
                all == behind(texts(tables@), cur.left().collect(f)),
            ensures
                all == Some(texts(tables@)),
            decreases cur.left().recs.len(),
        {
            let ghost before = cur.left();
            let ghost so_far = texts(tables@);
            match cur.next() {
                None => {
                    assert(so_far + Seq::<Seq<char>>::empty() =~= so_far);
                    break ;
                },
                Some(raw) => {
                    proof {
                        lemma_collect_step(before, f, so_far);
                    }
                    if let Some(rec) = self.unpack_record_meta(raw) {
                        let rec: &[u8] = rec.as_slice();
                        if rec.len() >= 42 + nl && rec[1] % 2 == 0 && rec[0] % 2 == 1 && get_u16(
                            rec,
                            34,
                        ) == 0 {
                            let name: &str = read_name(rec, 42, nl);
                            if !name.is_empty() {
                                tables.push(name.to_owned());
                                assert(texts(tables@) =~= so_far.push(name@));
                            }
                        }
                    }
                },
            }
        }
        sort_strings(&mut tables);
        tables
    }

    /// Reads the columns of a table from RDB$RELATION_FIELDS: field id and name, by
    /// position.
    pub fn read_field_names(&self, relation_id: u16, table_name: &str) -> (r: Result<
        Vec<(usize, String)>,
        OdsError,
    >)
        requires
            self.wf(),
            self@.columns(relation_id, table_name@) is Some,
        ensures
            self@.columns(relation_id, table_name@) == Some(columns_of(r)),
    {
        let target: String = to_uppercase(table_name);
        let pp: u32 = match self.find_first_pp(5) {
            Some(pp) => pp,
            None => {
                return Err(OdsError::NoPointerPage(5));
            },
        };
        let nl: usize = self.name_length();
        let pos_off: usize = if nl == 252 {
            1394
        } else {
            450
        };
        let id_off: usize = if nl == 252 {
            1410
        } else {
            466
        };
        let ghost g = column_in(nl as int, table_name@);
        let ghost f = in_meta(self@, g);
        let ghost all = self@.relation(pp as int).collect(f);
        let ghost mut found: Seq<(i16, (usize, Seq<char>))> = Seq::empty();
        let mut entries: Vec<(i16, (usize, String))> = Vec::new();
        let mut cur: SlotCursor = SlotCursor::new(self, pp);
        assert(found + all->0 =~= all->0);
        assert(column_entries(entries@) =~= ordered(found));
        loop
            invariant_except_break
                cur.wf(),
                cur.db() == self@,
                self.wf(),
                nl == self@.name_len(),
                pos_off == column_pos_off(nl as int),
                id_off == column_id_off(nl as int),
                target@ == uppercase(table_name@),
                g == column_in(nl as int, table_name@),
                f == in_meta(self@, g),
                cur.left().collect(f) is Some,
                all == behind(found, cur.left().collect(f)),
                column_entries(entries@) == ordered(found),
            ensures
                all == Some(found),
                column_entries(entries@) == ordered(found),
            decreases cur.left().recs.len(),
        {
            let ghost before = cur.left();
            match cur.next() {
                None => {
                    assert(found + Seq::<(i16, (usize, Seq<char>))>::empty() =~= found);
                    break ;
                },
                Some(raw) => {
                    proof {
                        lemma_collect_step(before, f, found);
                    }
                    if let Some(rec) = self.unpack_record_meta(raw) {
                        let rec: &[u8] = rec.as_slice();
                        if rec.len() >= id_off + 2 && rec[0] / 2 % 2 == 0 && rec[0] % 2 == 0 {
                            let rname: &str = read_name(rec, 4 + nl, nl);
                            let fname: &str = read_name(rec, 4, nl);
                            if same_text(to_uppercase(rname).as_str(), target.as_str())
                                && !fname.is_empty() {
                                let id: i16 = to_i16(get_u16(rec, id_off));
                                let pos: i16 = if rec[0] / 64 % 2 == 0 {
                                    to_i16(get_u16(rec, pos_off))
                                } else {
                                    id
                                };
                                let fid: usize = id as usize;
                                insert_column(&mut entries, (pos, (fid, fname.to_owned())));
                                proof {
                                    let x = (pos, (fid, fname@));
                                    assert(found.push(x).drop_last() =~= found);
                                    found = found.push(x);
                                }
                            }
                        }
                    }
                },
            }
        }
        proof {
            lemma_ordered(found);
            found.to_multiset_ensures();
            ordered(found).to_multiset_ensures();
            assert(ordered(found).len() == found.len());
            assert(column_entries(entries@).len() == entries@.len());
        }
        if entries.len() == 0 {
            return Err(OdsError::NoFields(relation_id));
        }
        let mut out: Vec<(usize, String)> = Vec::new();
        let mut i: usize = 0;
        while i < entries.len()
            invariant
                i <= entries@.len(),
                column_views(out@) =~= values(column_entries(entries@)).take(i as int),
            decreases entries@.len() - i,
        {
            let ghost all = values(column_entries(entries@));
            let ghost before = out@;
            let name: String = entries[i].1.1.clone();
            out.push((entries[i].1.0, name));
            assert(all.take(i + 1) =~= all.take(i as int).push(all[i as int]));
            assert(column_views(out@) =~= column_views(before).push(all[i as int]));
            i = i + 1;
        }
        assert(values(column_entries(entries@)).take(i as int) =~= values(
            column_entries(entries@),
        ));
        Ok(out)
    }

    /// The types of all constraints of a table.
    pub fn list_constraints(&self, table_name: &str) -> (r: Vec<String>)
        requires
            self.wf(),
            self@.constraints(table_name@) is Some,
        ensures
            self@.constraints(table_name@) == Some(texts(r@)),
    {
        let target: String = to_uppercase(table_name);
        let mut out: Vec<String> = Vec::new();
        assert(texts(out@) =~= Seq::empty());
        let pp: u32 = match self.find_first_pp(22) {
            Some(pp) => pp,
            None => {
                return out;
            },
        };
        let nl: usize = self.name_length();
        let ghost g = constraint_in(nl as int, target@);
        let ghost f = in_meta(self@, g);
        let ghost all = self@.relation(pp as int).collect(f);
        let mut cur: SlotCursor = SlotCursor::new(self, pp);
        assert(texts(out@) + all->0 =~= all->0);
        loop
            invariant_except_break
                cur.wf(),
                cur.db() == self@,
                self.wf(),
                nl == self@.name_len(),
                g == constraint_in(nl as int, target@),
                f == in_meta(self@, g),
                cur.left().collect(f) is Some,
                all == behind(texts(out@), cur.left().collect(f)),
            ensures
                all == Some(texts(out@)),
            decreases cur.left().recs.len(),
        {
            let ghost before = cur.left();
            let ghost so_far = texts(out@);
            match cur.next() {
                None => {
                    assert(so_far + Seq::<Seq<char>>::empty() =~= so_far);
                    break ;
                },
                Some(raw) => {
                    proof {
                        lemma_collect_step(before, f, so_far);
                    }
                    if let Some(rec) = self.unpack_record_meta(raw) {
                        let rec: &[u8] = rec.as_slice();
                        if rec.len() >= 15 + 2 * nl && eq_ignore_ascii_case(
                            read_padded(rec, 15 + nl, nl),
                            target.as_str(),
                        ) {
                            let ctype: &str = trim(read_text(rec, 4 + nl, 11));
                            out.push(ctype.to_owned());
                            assert(texts(out@) =~= so_far.push(ctype@));
                        }
                    }
                },
            }
        }
        out
    }

    /// Looks up the index behind the primary key of a table, as far as it can be read.
    pub fn try_pk_index_name(&self, table_name: &str) -> (r: Option<Result<String, OdsError>>)
        requires
            self.wf(),
        ensures
            match r {
                Some(x) => self@.pk_index(table_name@) == Some(text_of(x)),
                None => self@.pk_index(table_name@) is None,
            },
    {
        let pp: u32 = match self.try_first_pp(22) {
            Some(Some(pp)) => pp,
            Some(None) => {
                return Some(Err(OdsError::NoPointerPage(22)));
            },
            None => {
                return None;
            },
        };
        if self.try_data_pages(pp).is_none() {
            return None;
        }
        let target: String = to_uppercase(table_name);
        let nl: usize = self.name_length();
        let ghost g = pk_index_in(nl as int, target@);
        let ghost f = in_meta(self@, g);
        let ghost want = self@.relation(pp as int).find(f);
        let mut cur: SlotCursor = SlotCursor::new(self, pp);
        loop
            invariant
                cur.wf(),
                cur.db() == self@,
                self.wf(),
                nl == self@.name_len(),
                g == pk_index_in(nl as int, target@),
                f == in_meta(self@, g),
                want == cur.left().find(f),
                self@.pk_index(table_name@) == (match want {
                    None => None,
                    Some(None) => Some(Err(OdsError::NoPrimaryKey)),
                    Some(Some(name)) => Some(Ok(name)),
                }),
            decreases cur.left().recs.len(),
        {
            match cur.try_next() {
                None => {
                    return None;
                },
                Some(None) => {
                    return Some(Err(OdsError::NoPrimaryKey));
                },
                Some(Some(raw)) => {
                    if !self.record_fits(raw) {
                        return None;
                    }
                    if let Some(rec) = self.unpack_record_meta(raw) {
                        let rec: &[u8] = rec.as_slice();
                        if rec.len() >= 21 + 3 * nl {
                            let ctype: &str = trim(read_text(rec, 4 + nl, 11));
                            if eq_ignore_ascii_case(ctype, "PRIMARY KEY") && eq_ignore_ascii_case(
                                read_padded(rec, 15 + nl, nl),
                                target.as_str(),
                            ) {
                                return Some(Ok(read_padded(rec, 21 + 2 * nl, nl).to_owned()));
                            }
                        }
                    }
                },
            }
        }
    }

    /// Looks up the index behind the primary key of a table.
    pub fn find_pk_index_name(&self, table_name: &str) -> (r: Result<String, OdsError>)
        requires
            self.wf(),
            self@.pk_index(table_name@) is Some,
        ensures
            self@.pk_index(table_name@) == Some(text_of(r)),
    {
        match self.try_pk_index_name(table_name) {
            Some(r) => r,
            None => Err(OdsError::NoPrimaryKey),
        }
    }

    /// Reads the columns of an index from RDB$INDEX_SEGMENTS, by position.
    pub fn find_index_field_names(&self, index_name: &str) -> (r: Result<Vec<String>, OdsError>)
        requires
            self.wf(),
            self@.index_columns(index_name@) is Some,
        ensures
            self@.index_columns(index_name@) == Some(texts_of(r)),
    {
        let pp: u32 = match self.find_first_pp(3) {
            Some(pp) => pp,
            None => {
                return Err(OdsError::NoPointerPage(3));
            },
        };
        let target: String = to_uppercase(index_name);
        let nl: usize = self.name_length();
        let ghost g = segment_in(nl as int, target@);
        let ghost f = in_meta(self@, g);
        let ghost all = self@.relation(pp as int).collect(f);
        let ghost mut found: Seq<(Option<i16>, Seq<char>)> = Seq::empty();
        let mut entries: Vec<(i16, String)> = Vec::new();
        let mut cur: SlotCursor = SlotCursor::new(self, pp);
        assert(found + all->0 =~= all->0);
        assert(placed(found) =~= Seq::empty());
        assert(name_entries(entries@) =~= ordered(placed(found)));
        loop
            invariant_except_break
                cur.wf(),
                cur.db() == self@,
                self.wf(),
                nl == self@.name_len(),
                g == segment_in(nl as int, target@),
                f == in_meta(self@, g),
                cur.left().collect(f) is Some,
                all == behind(found, cur.left().collect(f)),
                entries@.len() == found.len(),
                name_entries(entries@) == ordered(placed(found)),
            ensures
                all == Some(found),
                entries@.len() == found.len(),
                name_entries(entries@) == ordered(placed(found)),
            decreases cur.left().recs.len(),
        {
            let ghost before = cur.left();
            match cur.next() {
                None => {
                    assert(found + Seq::<(Option<i16>, Seq<char>)>::empty() =~= found);
                    break ;
                },
                Some(raw) => {
                    proof {
                        lemma_collect_step(before, f, found);
                    }
                    if let Some(rec) = self.unpack_record_meta(raw) {
                        let rec: &[u8] = rec.as_slice();
                        if rec.len() >= 4 + 2 * nl && eq_ignore_ascii_case(
                            read_padded(rec, 4, nl),
                            target.as_str(),
                        ) {
                            let fname: &str = read_padded(rec, 4 + nl, nl);
                            let given: Option<i16> = if rec.len() >= 6 + 2 * nl {
                                Some(to_i16(get_u16(rec, 4 + 2 * nl)))
                            } else {
                                None
                            };
                            let pos: i16 = match given {
                                Some(p) => p,
                                None => count_as_i16(entries.len()),
                            };
                            insert_name(&mut entries, (pos, fname.to_owned()));
                            proof {
                                let more = found.push((given, fname@));
                                assert(placed(more).drop_last() =~= placed(found));
                                assert(placed(more).last() == (pos, fname@));
                                lemma_ordered(placed(more));
                                placed(more).to_multiset_ensures();
                                ordered(placed(more)).to_multiset_ensures();
                                assert(name_entries(entries@).len() == entries@.len());
                                found = more;
                            }
                        }
                    }
                },
            }
        }
        if entries.len() == 0 {
            return Err(OdsError::NoIndexSegments);
        }
        let mut out: Vec<String> = Vec::new();
        let mut i: usize = 0;
        while i < entries.len()
            invariant
                i <= entries@.len(),
                texts(out@) =~= values(name_entries(entries@)).take(i as int),
            decreases entries@.len() - i,
        {
            let ghost all = values(name_entries(entries@));
            let ghost before = out@;
            let name: String = entries[i].1.clone();
            out.push(name);
            assert(all.take(i + 1) =~= all.take(i as int).push(all[i as int]));
            assert(texts(out@) =~= texts(before).push(all[i as int]));
            i = i + 1;
        }
        assert(values(name_entries(entries@)).take(i as int) =~= values(name_entries(entries@)));
        Ok(out)
    }

    /// Reads the columns of the primary key of a table.
    pub fn read_primary_key_fields(&self, table_name: &str) -> (r: Result<Vec<String>, OdsError>)
        requires
            self.wf(),
            self@.primary_key(table_name@) is Some,
        ensures
            self@.primary_key(table_name@) == Some(texts_of(r)),
    {
        match self.find_pk_index_name(table_name) {
            Err(e) => Err(e),
            Ok(index) => self.find_index_field_names(index.as_str()),
        }
    }
}

} // verus!
