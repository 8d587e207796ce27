//! What the statements say that are sent to PostgreSQL.
use crate::extract::field_value;
use crate::gateway;
use crate::merge::{
    assignments, copy_sql, delete_sql, delete_table, delta_table, drop_sql, key_match,
    law_key_is_not_updated, merge_steps, non_key, upsert_sql, MergeMeta, Phase, StepView,
};
use crate::migrate::{copy_table_sql, drop_table_sql};
use crate::ods::{Desc, OdsError, OdsReader};
use crate::schema::{
    column_line, column_lines, create_sql, create_table_sql_from, key_line, pg_type,
};
use crate::sync::{column_names, meta_shows};
use crate::text::{decimal, joined, lowercase, padded, parts, texts, without_char};
use crate::text_laws::{
    holds_comma_blank, law_joined_grows, law_list_is_split, law_quoted, law_without_char,
};
use vstd::prelude::*;

verus! {

// ── Primary keys ─────────────────────────────────────────────────────────────

/// A name as statements have it: in small letters, between quotation marks.
pub open spec fn sql_name(name: Seq<char>) -> Seq<char> {
    seq!['"'] + lowercase(name) + seq!['"']
}

/// The list in a PRIMARY KEY line is that of all columns of the key: split at the comma and
/// the blank, it has as many names as the key has columns, each at its place. This leaves out
/// keys with a comma and a blank in a name.
pub proof fn law_primary_key_lists_all_columns(pks: Seq<Seq<char>>) -> (list: Seq<char>)
    requires
        pks.len() > 0,
        forall|i: int| 0 <= i < pks.len() ==> !holds_comma_blank(sql_name(#[trigger] pks[i])),
    ensures
        key_line(pks) == "    PRIMARY KEY ("@ + list + ")"@,
        parts(list, seq![',', ' ']) == Seq::new(pks.len(), |i: int| sql_name(pks[i])),
{
    let names = column_names(pks);
    reveal_strlit(", ");
    assert(", "@ =~= seq![',', ' ']);
    assert forall|i: int| 0 <= i < names.len() implies !holds_comma_blank(#[trigger] names[i]) by {
        law_quoted(lowercase(pks[i]));
        assert(!holds_comma_blank(sql_name(pks[i])));
    }
    assert forall|i: int| 0 <= i < names.len() implies #[trigger] names[i] == sql_name(pks[i]) by {
        law_quoted(lowercase(pks[i]));
    }
    law_list_is_split(names);
    assert(names =~= Seq::new(pks.len(), |i: int| sql_name(pks[i])));
    joined(names, seq![',', ' '])
}

/// With one more column in the key, the line has one more name at the end of its list,
/// whatever the names are.
pub proof fn law_primary_key_grows(pks: Seq<Seq<char>>, last: Seq<char>)
    ensures
        key_line(seq![last]) == "    PRIMARY KEY ("@ + sql_name(last) + ")"@,
        pks.len() > 0 ==> key_line(pks.push(last)) == key_line(pks).drop_last() + ", "@ + sql_name(
            last,
        ) + ")"@,
{
    reveal_strlit(")");
    law_quoted(lowercase(last));
    let names = column_names(pks);
    law_joined_grows(names, sql_name(last), ", "@);
    assert(column_names(seq![last]) =~= seq![sql_name(last)]);
    assert(column_names(pks.push(last)) =~= names.push(sql_name(last)));
    if pks.len() > 0 {
        assert(key_line(pks.push(last)) =~= key_line(pks).drop_last() + ", "@ + sql_name(last)
            + ")"@);
    }
}

// ── CREATE TABLE ─────────────────────────────────────────────────────────────

/// With one more column, a statement has one more line, with the name and the type of that
/// column.
pub proof fn law_create_has_a_line_for_each_column(
    t: Seq<char>,
    unlogged: bool,
    cols: Seq<(usize, Seq<char>)>,
    col: (usize, Seq<char>),
    descs: Seq<Desc>,
)
    requires
        col.0 < descs.len(),
    ensures
        ({
            let none = Seq::<Seq<char>>::empty();
            let line = "    "@ + padded(sql_name(col.1), 42) + " "@ + pg_type(descs[col.0 as int]);
            let kind = if unlogged {
                "CREATE UNLOGGED TABLE "@
            } else {
                "CREATE TABLE "@
            };
            let one = create_sql(t, unlogged, seq![col], descs, none);
            let before = create_sql(t, unlogged, cols, descs, none);
            let now = create_sql(t, unlogged, cols.push(col), descs, none);
            &&& one == kind + seq!['"'] + t + seq!['"'] + " (\n"@ + line + "\n);"@
            &&& cols.len() > 0 ==> now == before.take(before.len() - 3) + ",\n"@ + line + "\n);"@
        }),
{
    let none = Seq::<Seq<char>>::empty();
    let line = "    "@ + padded(sql_name(col.1), 42) + " "@ + pg_type(descs[col.0 as int]);
    law_quoted(lowercase(col.1));
    law_quoted(t);
    reveal_strlit("CREATE ");
    reveal_strlit("UNLOGGED ");
    reveal_strlit("");
    reveal_strlit("TABLE ");
    reveal_strlit("CREATE TABLE ");
    reveal_strlit("CREATE UNLOGGED TABLE ");
    reveal_strlit("\n);");
    assert("CREATE "@ + "UNLOGGED "@ + "TABLE "@ =~= "CREATE UNLOGGED TABLE "@);
    assert("CREATE "@ + ""@ + "TABLE "@ =~= "CREATE TABLE "@);
    assert(column_line(col.1, descs[col.0 as int]) == line);
    assert(column_lines(seq![col], descs) =~= seq![line]);
    let lines = column_lines(cols, descs);
    assert(column_lines(cols.push(col), descs) =~= lines.push(line));
    law_joined_grows(lines, line, ",\n"@);
    let kind = if unlogged {
        "CREATE UNLOGGED TABLE "@
    } else {
        "CREATE TABLE "@
    };
    let head = kind + seq!['"'] + t + seq!['"'] + " (\n"@;
    assert(create_sql(t, unlogged, seq![col], descs, none) =~= head + line + "\n);"@);
    if cols.len() > 0 {
        let before = create_sql(t, unlogged, cols, descs, none);
        assert(before =~= head + joined(lines, ",\n"@) + "\n);"@);
        assert(before.take(before.len() - 3) =~= head + joined(lines, ",\n"@));
        assert(create_sql(t, unlogged, cols.push(col), descs, none) =~= before.take(
            before.len() - 3,
        ) + ",\n"@ + line + "\n);"@);
    }
}

/// The primary key is the last line of the statement, and there is none without a key.
pub proof fn law_create_ends_with_the_key(
    t: Seq<char>,
    unlogged: bool,
    cols: Seq<(usize, Seq<char>)>,
    descs: Seq<Desc>,
    pks: Seq<Seq<char>>,
)
    requires
        cols.len() > 0,
        pks.len() > 0,
    ensures
        ({
            let bare = create_sql(t, unlogged, cols, descs, Seq::empty());
            create_sql(t, unlogged, cols, descs, pks) == bare.take(bare.len() - 3) + ",\n"@
                + key_line(pks) + "\n);"@
        }),
{
    reveal_strlit("\n);");
    let lines = column_lines(cols, descs);
    law_joined_grows(lines, key_line(pks), ",\n"@);
    let bare = create_sql(t, unlogged, cols, descs, Seq::empty());
    assert(create_sql(t, unlogged, cols, descs, pks) =~= bare.take(bare.len() - 3) + ",\n"@
        + key_line(pks) + "\n);"@);
}

/// The type of a column by that of its field.
pub proof fn law_types(desc: Desc)
    ensures
        desc.scale == 0 && desc.dtype == 8 ==> pg_type(desc) == "SMALLINT"@,
        desc.scale == 0 && desc.dtype == 9 ==> pg_type(desc) == "INTEGER"@,
        desc.scale == 0 && (desc.dtype == 10 || desc.dtype == 19) ==> pg_type(desc) == "BIGINT"@,
        desc.scale != 0 && (8 <= desc.dtype <= 10 || desc.dtype == 19) ==> pg_type(desc)
            == "DOUBLE PRECISION"@,
        desc.dtype == 11 ==> pg_type(desc) == "REAL"@,
        desc.dtype == 12 || desc.dtype == 13 ==> pg_type(desc) == "DOUBLE PRECISION"@,
        desc.dtype == 14 ==> pg_type(desc) == "DATE"@,
        desc.dtype == 15 || desc.dtype == 25 ==> pg_type(desc) == "TIME"@,
        desc.dtype == 16 || desc.dtype == 26 ==> pg_type(desc) == "TIMESTAMP"@,
        desc.dtype == 21 ==> pg_type(desc) == "BOOLEAN"@,
        desc.dtype == 20 ==> pg_type(desc) == "BYTEA"@,
        desc.dtype == 17 || desc.dtype == 18 || 22 <= desc.dtype <= 24 ==> pg_type(desc)
            == "TEXT"@,
        desc.dtype == 1 || desc.dtype == 2 ==> pg_type(desc) == "VARCHAR("@ + decimal(
            desc.length as nat,
        ) + ")"@,
        desc.dtype == 3 && desc.length >= 2 ==> pg_type(desc) == "VARCHAR("@ + decimal(
            (desc.length - 2) as nat,
        ) + ")"@,
{
}

/// The value of a column has the width that its type has in PostgreSQL.
pub proof fn law_value_fits_its_type(rec: Seq<u8>, desc: Desc)
    ensures
        match field_value(rec, desc) {
            None => true,
            Some(v) => {
                &&& pg_type(desc) == "SMALLINT"@ ==> v.len() == 2
                &&& pg_type(desc) == "INTEGER"@ || pg_type(desc) == "REAL"@ || pg_type(desc)
                    == "DATE"@ ==> v.len() == 4
                &&& pg_type(desc) == "BIGINT"@ || pg_type(desc) == "DOUBLE PRECISION"@ || pg_type(
                    desc,
                ) == "TIME"@ || pg_type(desc) == "TIMESTAMP"@ ==> v.len() == 8
                &&& pg_type(desc) == "BOOLEAN"@ ==> v.len() == 1
                &&& pg_type(desc) != "TEXT"@
            },
        },
{
    reveal_strlit("SMALLINT");
    reveal_strlit("INTEGER");
    reveal_strlit("REAL");
    reveal_strlit("DATE");
    reveal_strlit("BIGINT");
    reveal_strlit("DOUBLE PRECISION");
    reveal_strlit("TIME");
    reveal_strlit("TIMESTAMP");
    reveal_strlit("BOOLEAN");
    reveal_strlit("BYTEA");
    reveal_strlit("TEXT");
    reveal_strlit("VARCHAR(");
    let t = pg_type(desc);
    assert("SMALLINT"@[0] == 'S' && "INTEGER"@[0] == 'I' && "REAL"@[0] == 'R');
    assert("DATE"@[0] == 'D' && "DATE"@[1] == 'A' && "DOUBLE PRECISION"@[1] == 'O');
    assert("BIGINT"@[0] == 'B' && "BIGINT"@[1] == 'I' && "BOOLEAN"@[0] == 'B' && "BOOLEAN"@[1]
        == 'O' && "BYTEA"@[1] == 'Y');
    assert("TIME"@[0] == 'T' && "TIME"@[1] == 'I' && "TEXT"@[1] == 'E' && "TIMESTAMP"@[1] == 'I');
    assert(t[0] == t[0] && t[1] == t[1]);
    if 1 <= desc.dtype <= 3 {
        lemma_type_starts(desc);
    }
}

proof fn lemma_type_starts(desc: Desc)
    requires
        1 <= desc.dtype <= 3,
    ensures
        pg_type(desc)[0] == 'V',
{
    reveal_strlit("VARCHAR(");
}

// ── Deletes ──────────────────────────────────────────────────────────────────

/// The equality of a column of the target with that of a deleted key.
pub open spec fn column_is_deleted(t: Seq<char>, col: Seq<char>) -> Seq<char> {
    "\""@ + t + "\"."@ + col + " = \"_fdb_del_"@ + without_char(t, '"') + "\"."@ + col
}

/// The condition of a DELETE is that all columns of the key are equal to those of a deleted
/// key: it is the equality of the first column, and every further column adds its own behind
/// the word AND.
pub proof fn law_delete_compares_every_key_column(short: MergeMeta, long: MergeMeta)
    requires
        short.pg_table@ == long.pg_table@,
        short.pk_col_names@.len() > 0,
        long.pk_col_names@.len() == short.pk_col_names@.len() + 1,
        forall|i: int|
            0 <= i < short.pk_col_names@.len() ==> (#[trigger] long.pk_col_names@[i])@
                == short.pk_col_names@[i]@,
    ensures
        short.pk_col_names@.len() == 1 ==> delete_sql(short) == "DELETE FROM \""@ + short.pg_table@
            + "\" USING \"_fdb_del_"@ + without_char(short.pg_table@, '"') + "\" WHERE "@
            + column_is_deleted(short.pg_table@, short.pk_col_names@[0]@),
        delete_sql(long) == delete_sql(short) + " AND "@ + column_is_deleted(
            short.pg_table@,
            long.pk_col_names@.last()@,
        ),
{
    reveal_strlit(" = \"");
    reveal_strlit("_fdb_del_");
    reveal_strlit(" = \"_fdb_del_");
    reveal_strlit("\" USING \"");
    reveal_strlit("\" USING \"_fdb_del_");
    assert(" = \""@ + "_fdb_del_"@ =~= " = \"_fdb_del_"@);
    assert("\" USING \""@ + "_fdb_del_"@ =~= "\" USING \"_fdb_del_"@);
    let t = short.pg_table@;
    let a = texts(short.pk_col_names@);
    let b = texts(long.pk_col_names@);
    let ka = a.map_values(|c: Seq<char>| key_match(short, c));
    let kb = b.map_values(|c: Seq<char>| key_match(long, c));
    assert forall|c: Seq<char>| #[trigger] key_match(short, c) == column_is_deleted(t, c)
        && key_match(long, c) == column_is_deleted(t, c) by {
        assert(key_match(short, c) =~= column_is_deleted(t, c));
        assert(key_match(long, c) =~= column_is_deleted(t, c));
    }
    let last = long.pk_col_names@.last()@;
    assert forall|i: int| 0 <= i < ka.len() implies ka[i] == kb[i] by {
        assert(long.pk_col_names@[i]@ == short.pk_col_names@[i]@);
        assert(a[i] == b[i]);
    }
    assert(kb.last() == column_is_deleted(t, last)) by {
        assert(b[b.len() - 1] == last);
    }
    assert(kb =~= ka.push(column_is_deleted(t, last)));
    law_joined_grows(ka, column_is_deleted(t, last), " AND "@);
    if ka.len() == 1 {
        assert(ka =~= seq![column_is_deleted(t, a[0])]);
        law_joined_grows(ka, column_is_deleted(t, a[0]), " AND "@);
        assert(delete_sql(short) =~= "DELETE FROM \""@ + t + "\" USING \"_fdb_del_"@
            + without_char(t, '"') + "\" WHERE "@ + column_is_deleted(t, a[0]));
    }
    assert(delete_sql(long) =~= delete_sql(short) + " AND "@ + column_is_deleted(t, last));
}

// ── Upserts ──────────────────────────────────────────────────────────────────

/// Whether an assignment gives a column that is not part of the key its new value.
pub open spec fn assigns_one(cols: Seq<Seq<char>>, pks: Seq<Seq<char>>, a: Seq<char>) -> bool {
    exists|col: Seq<char>|
        #![trigger cols.contains(col)]
        cols.contains(col) && !pks.contains(col) && a == col + " = EXCLUDED."@ + col
}

/// An upsert takes all columns of the rows that were copied, and where the key is there
/// already it updates exactly the columns that are not part of the key.
pub proof fn law_upsert_updates_every_other_column(
    meta: MergeMeta,
    src: Seq<char>,
    cols: Seq<Seq<char>>,
    col: Seq<char>,
)
    requires
        cols.len() > 0,
        forall|i: int| 0 <= i < cols.len() ==> !holds_comma_blank(#[trigger] cols[i]),
        meta.cols_csv@ == joined(cols, seq![',', ' ']),
    ensures
        ({
            let pks = texts(meta.pk_col_names@);
            let list = assignments(meta);
            let head = "INSERT INTO \""@ + meta.pg_table@ + "\" ("@ + meta.cols_csv@ + ") SELECT "@
                + meta.cols_csv@ + " FROM \""@ + src + "\" ON CONFLICT ("@ + meta.pk_csv@;
            &&& upsert_sql(meta, src) == if list.len() == 0 {
                head + ") DO NOTHING"@
            } else {
                head + ") DO UPDATE SET "@ + joined(list, ", "@)
            }
            &&& cols.contains(col) && !pks.contains(col) ==> list.contains(
                col + " = EXCLUDED."@ + col,
            )
            &&& forall|i: int|
                0 <= i < list.len() ==> assigns_one(cols, pks, #[trigger] list[i])
        }),
{
    reveal_strlit(", ");
    assert(", "@ =~= seq![',', ' ']);
    law_list_is_split(cols);
    let pks = texts(meta.pk_col_names@);
    let list = assignments(meta);
    let others = non_key(cols, pks);
    law_key_is_not_updated(cols, pks, col);
    if others.contains(col) {
        let i = choose|i: int| 0 <= i < others.len() && others[i] == col;
        assert(list[i] == col + " = EXCLUDED."@ + col);
    }
    assert forall|i: int| 0 <= i < list.len() implies assigns_one(
        cols,
        pks,
        #[trigger] list[i],
    ) by {
        law_key_is_not_updated(cols, pks, others[i]);
        assert(others.contains(others[i]));
        assert(cols.contains(others[i]));
    }
}

/// What a table is merged by comes from its cache: all columns, those of the key, and the
/// table's own name in small letters.
pub proof fn law_merge_is_of_the_table(
    meta: MergeMeta,
    table: Seq<char>,
    c: crate::cdc::TableCache,
    i: int,
)
    requires
        meta_shows(meta, table, c),
        c.col_names@.len() > 0,
        c.pk_col_names@.len() > 0,
        forall|k: int|
            0 <= k < c.col_names@.len() ==> !holds_comma_blank((#[trigger] c.col_names@[k])@),
        forall|k: int|
            0 <= k < c.pk_col_names@.len() ==> !holds_comma_blank(
                (#[trigger] c.pk_col_names@[k])@,
            ),
    ensures
        meta.pg_table@ == lowercase(table),
        parts(meta.cols_csv@, seq![',', ' ']) == texts(c.col_names@),
        parts(meta.pk_csv@, seq![',', ' ']) == texts(c.pk_col_names@),
        meta.pk_col_names@.len() == c.pk_col_names@.len(),
        0 <= i < c.pk_col_names@.len() ==> meta.pk_col_names@[i]@ == c.pk_col_names@[i]@,
{
    reveal_strlit(", ");
    assert(", "@ =~= seq![',', ' ']);
    let a = texts(c.col_names@);
    let b = texts(c.pk_col_names@);
    assert forall|k: int| 0 <= k < a.len() implies !holds_comma_blank(#[trigger] a[k]) by {
        assert(a[k] == c.col_names@[k]@);
    }
    assert forall|k: int| 0 <= k < b.len() implies !holds_comma_blank(#[trigger] b[k]) by {
        assert(b[k] == c.pk_col_names@[k]@);
    }
    law_list_is_split(a);
    law_list_is_split(b);
    assert(texts(meta.pk_col_names@).len() == b.len());
    if 0 <= i < b.len() {
        assert(texts(meta.pk_col_names@)[i] == b[i]);
    }
}

// ── The order of a merge ─────────────────────────────────────────────────────

/// A merge copies changes and keys into two tables of its own, deletes by the second before
/// it upserts from the first, and drops both again. Only a DROP may fail.
pub proof fn law_merge_deletes_before_it_upserts(
    meta: MergeMeta,
    n_upserts: u64,
    n_deletes: u64,
    framed: bool,
)
    ensures
        ({
            let s = merge_steps(meta, n_upserts, n_deletes, framed);
            let t = meta.pg_table@;
            let rows = "_fdb_delta_"@ + without_char(t, '"');
            let keys = "_fdb_del_"@ + without_char(t, '"');
            let drop_rows = "DROP TABLE IF EXISTS \""@ + rows + "\""@;
            let drop_keys = "DROP TABLE IF EXISTS \""@ + keys + "\""@;
            let del: int = if n_deletes > 0 {
                2
            } else if framed {
                1
            } else {
                0
            };
            let ups: int = if n_upserts > 0 {
                1
            } else {
                0
            };
            &&& s.len() == 5 + del + ups + 2
            &&& s[0] == StepView::Execute(drop_rows, false, Phase::Setup)
            &&& s[1] == StepView::Execute(drop_keys, false, Phase::Setup)
            &&& s[2] == StepView::Execute(
                "CREATE TEMP TABLE \""@ + rows + "\" (LIKE \""@ + t + "\")"@,
                true,
                Phase::Setup,
            )
            &&& s[3] == StepView::Execute(
                "CREATE TEMP TABLE \""@ + keys + "\" AS SELECT "@ + meta.pk_csv@ + " FROM \""@ + t
                    + "\" WHERE false"@,
                true,
                Phase::Setup,
            )
            &&& s[4] == StepView::CopyUpserts(
                "COPY \""@ + rows + "\" ("@ + meta.cols_csv@ + ") FROM STDIN WITH (FORMAT BINARY)"@,
            )
            &&& n_deletes > 0 ==> s[5] == StepView::CopyDeletes(
                "COPY \""@ + keys + "\" ("@ + meta.pk_csv@ + ") FROM STDIN WITH (FORMAT BINARY)"@,
            ) && s[6] == StepView::Execute(delete_sql(meta), true, Phase::Delete)
            &&& n_deletes == 0 && framed ==> s[5] == StepView::DrainDeletes
            &&& n_upserts > 0 ==> s[5 + del] == StepView::Execute(
                upsert_sql(meta, rows),
                true,
                Phase::Upsert,
            )
            &&& s[5 + del + ups] == StepView::Execute(drop_rows, false, Phase::Cleanup)
            &&& s[6 + del + ups] == StepView::Execute(drop_keys, false, Phase::Cleanup)
        }),
{
}

/// The tables of a merge are named after the target, and none is the target.
pub proof fn law_merge_tables_are_its_own(meta: MergeMeta)
    requires
        !meta.pg_table@.contains('"'),
    ensures
        delta_table(meta) == "_fdb_delta_"@ + meta.pg_table@,
        delete_table(meta) == "_fdb_del_"@ + meta.pg_table@,
        delta_table(meta) != delete_table(meta),
        delta_table(meta) != meta.pg_table@,
        delete_table(meta) != meta.pg_table@,
{
    law_without_char(meta.pg_table@, '"');
    reveal_strlit("_fdb_delta_");
    reveal_strlit("_fdb_del_");
    assert(delta_table(meta).len() == 11 + meta.pg_table@.len());
    assert(delete_table(meta).len() == 9 + meta.pg_table@.len());
}

// ── Whole loads ──────────────────────────────────────────────────────────────

/// A load drops, creates and fills one table, that of the name in small letters.
pub proof fn law_load_is_of_one_table(table: Seq<char>)
    ensures
        drop_table_sql(table) == "DROP TABLE IF EXISTS \""@ + lowercase(table) + "\""@,
        copy_table_sql(table) == "COPY \""@ + lowercase(table)
            + "\" FROM STDIN WITH (FORMAT BINARY)"@,
{
    law_quoted(lowercase(table));
    reveal_strlit("DROP TABLE IF EXISTS ");
    reveal_strlit("DROP TABLE IF EXISTS \"");
    reveal_strlit("\"");
    reveal_strlit("COPY ");
    reveal_strlit("COPY \"");
    reveal_strlit(" FROM STDIN WITH (FORMAT BINARY)");
    reveal_strlit("\" FROM STDIN WITH (FORMAT BINARY)");
    assert(drop_table_sql(table) =~= "DROP TABLE IF EXISTS \""@ + lowercase(table) + "\""@);
    assert(copy_table_sql(table) =~= "COPY \""@ + lowercase(table)
        + "\" FROM STDIN WITH (FORMAT BINARY)"@);
}

/// A pushed load fills a table beside the target, and takes its place in one transaction:
/// the target is dropped and the other renamed to it, or neither.
pub proof fn law_load_takes_its_place_at_once(t: Seq<char>)
    ensures
        ({
            let staging = gateway::staging_name(t);
            &&& staging == t + "__load"@
            &&& gateway::drop_sql(staging) == "DROP TABLE IF EXISTS "@ + seq!['"'] + staging
                + seq!['"']
            &&& gateway::copy_sql(staging) == "COPY "@ + seq!['"'] + staging + seq!['"']
                + " FROM STDIN WITH (FORMAT BINARY)"@
            &&& gateway::swap_sql(t, staging) == "BEGIN; DROP TABLE IF EXISTS "@ + seq!['"'] + t
                + seq!['"'] + "; ALTER TABLE "@ + seq!['"'] + staging + seq!['"'] + " RENAME TO "@
                + seq!['"'] + t + seq!['"'] + "; COMMIT;"@
        }),
{
    let staging = gateway::staging_name(t);
    law_quoted(t);
    law_quoted(staging);
    assert(gateway::drop_sql(staging) =~= "DROP TABLE IF EXISTS "@ + seq!['"'] + staging
        + seq!['"']);
    assert(gateway::copy_sql(staging) =~= "COPY "@ + seq!['"'] + staging + seq!['"']
        + " FROM STDIN WITH (FORMAT BINARY)"@);
    assert(gateway::swap_sql(t, staging) =~= "BEGIN; DROP TABLE IF EXISTS "@ + seq!['"'] + t
        + seq!['"'] + "; ALTER TABLE "@ + seq!['"'] + staging + seq!['"'] + " RENAME TO "@
        + seq!['"'] + t + seq!['"'] + "; COMMIT;"@);
}

/// A table is created with its primary key: behind the lines of its columns, the statement ends
/// with the list of all columns of the key, in the order of the index. This leaves out keys with
/// a comma and a blank in a name.
pub proof fn law_created_table_has_its_key(
    db: &OdsReader,
    table: &str,
    unlogged: bool,
    r: Result<String, OdsError>,
    rid: u16,
    descs: Seq<Desc>,
    cols: Seq<(usize, Seq<char>)>,
    pks: Seq<Seq<char>>,
) -> (list: Seq<char>)
    requires
        db.wf(),
        call_ensures(create_table_sql_from, (db, table, unlogged), r),
        db@.layout(table@) == Some(
            Ok::<(u16, Seq<Desc>, Seq<(usize, Seq<char>)>), OdsError>((rid, descs, cols)),
        ),
        db@.primary_key(table@) == Some(Ok::<Seq<Seq<char>>, OdsError>(pks)),
        cols.len() > 0,
        pks.len() > 0,
        forall|i: int| 0 <= i < pks.len() ==> !holds_comma_blank(sql_name(#[trigger] pks[i])),
    ensures
        r is Ok,
        ({
            let bare = create_sql(lowercase(table@), unlogged, cols, descs, Seq::empty());
            r->Ok_0@ == bare.take(bare.len() - 3) + ",\n"@ + ("    PRIMARY KEY ("@ + list + ")"@)
                + "\n);"@
        }),
        parts(list, seq![',', ' ']) == Seq::new(pks.len(), |i: int| sql_name(pks[i])),
{
    law_create_ends_with_the_key(lowercase(table@), unlogged, cols, descs, pks);
    law_primary_key_lists_all_columns(pks)
}

/// Without a primary key a table is created with the lines of its columns alone, and where the
/// database does not say what it looks like it is not created.
pub proof fn law_table_without_key_is_created(
    db: &OdsReader,
    table: &str,
    unlogged: bool,
    r: Result<String, OdsError>,
)
    requires
        db.wf(),
        call_ensures(create_table_sql_from, (db, table, unlogged), r),
        db@.create_table(table@, unlogged) is Some,
    ensures
        r is Err <==> db@.layout(table@)->0 is Err,
        r is Err ==> r->Err_0 == db@.layout(table@)->0->Err_0,
        r is Ok && db@.primary_key(table@)->0 is Err ==> ({
            let (rid, descs, cols) = db@.layout(table@)->0->Ok_0;
            r->Ok_0@ == create_sql(lowercase(table@), unlogged, cols, descs, Seq::empty())
        }),
{
}

/// What a column is called in a load is what it is called in a delta.
pub proof fn law_columns_have_one_name(name: Seq<char>)
    ensures
        column_names(seq![name])[0] == sql_name(name),
{
    law_quoted(lowercase(name));
}

} // verus!
