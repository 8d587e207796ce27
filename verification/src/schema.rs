//! The tables of a database as PostgreSQL tables.
use crate::catalog::{column_views, text_of};
use crate::cli::Args;
use crate::extract::{numbered_columns, zero_desc};
use crate::ods::{
    header, Desc, Image, OdsError, OdsReader, DTYPE_BOOLEAN, DTYPE_CSTRING, DTYPE_DBKEY,
    DTYPE_DOUBLE, DTYPE_D_FLOAT, DTYPE_INT64, DTYPE_LONG, DTYPE_QUAD, DTYPE_REAL, DTYPE_SHORT,
    DTYPE_SQL_DATE, DTYPE_SQL_TIME, DTYPE_SQL_TIME_TZ, DTYPE_TEXT, DTYPE_TIMESTAMP,
    DTYPE_TIMESTAMP_TZ, DTYPE_VARYING,
};
use crate::sync::{column_names, quote_key_names};
use crate::text::{
    decimal, join, joined, lowercase, pad, padded, push_decimal, quote, quoted, texts, to_lowercase,
};
use vstd::prelude::*;
use vstd::string::StringExecFns;

verus! {

/// The type of a text of at most `n` bytes.
pub open spec fn varchar(n: nat) -> Seq<char> {
    "VARCHAR("@ + decimal(n) + ")"@
}

/// The type that a number has that is stored with a scale; a fraction becomes a floating
/// point number.
pub open spec fn scaled(desc: Desc, whole: Seq<char>) -> Seq<char> {
    if desc.scale == 0 {
        whole
    } else {
        "DOUBLE PRECISION"@
    }
}

/// The PostgreSQL type of a column.
pub open spec fn pg_type(desc: Desc) -> Seq<char> {
    if desc.dtype == DTYPE_TEXT || desc.dtype == DTYPE_CSTRING {
        varchar(desc.length as nat)
    } else if desc.dtype == DTYPE_VARYING {
        varchar(
            if desc.length < 2 {
                0
            } else {
                (desc.length - 2) as nat
            },
        )
    } else if desc.dtype == DTYPE_SHORT {
        scaled(desc, "SMALLINT"@)
    } else if desc.dtype == DTYPE_LONG {
        scaled(desc, "INTEGER"@)
    } else if desc.dtype == DTYPE_INT64 || desc.dtype == DTYPE_QUAD {
        scaled(desc, "BIGINT"@)
    } else if desc.dtype == DTYPE_REAL {
        "REAL"@
    } else if desc.dtype == DTYPE_DOUBLE || desc.dtype == DTYPE_D_FLOAT {
        "DOUBLE PRECISION"@
    } else if desc.dtype == DTYPE_SQL_DATE {
        "DATE"@
    } else if desc.dtype == DTYPE_SQL_TIME || desc.dtype == DTYPE_SQL_TIME_TZ {
        "TIME"@
    } else if desc.dtype == DTYPE_TIMESTAMP || desc.dtype == DTYPE_TIMESTAMP_TZ {
        "TIMESTAMP"@
    } else if desc.dtype == DTYPE_BOOLEAN {
        "BOOLEAN"@
    } else if desc.dtype == DTYPE_DBKEY {
        "BYTEA"@
    } else {
        "TEXT"@
    }
}

fn varchar_type(n: u16) -> (r: String)
    ensures
        r@ == varchar(n as nat),
{
    let mut s: String = String::from_str("VARCHAR(");
    push_decimal(&mut s, n as u64);
    s.append(")");
    s
}

fn scaled_type(desc: &Desc, whole: &str) -> (r: String)
    ensures
        r@ == scaled(*desc, whole@),
{
    if desc.scale == 0 {
        String::from_str(whole)
    } else {
        String::from_str("DOUBLE PRECISION")
    }
}

/// The PostgreSQL type of a column.
pub fn fb_type_to_pg(desc: &Desc) -> (r: String)
    ensures
        r@ == pg_type(*desc),
{
    let t: u8 = desc.dtype;
    if t == DTYPE_TEXT || t == DTYPE_CSTRING {
        varchar_type(desc.length)
    } else if t == DTYPE_VARYING {
        varchar_type(
            if desc.length < 2 {
                0
            } else {
                desc.length - 2
            },
        )
    } else if t == DTYPE_SHORT {
        scaled_type(desc, "SMALLINT")
    } else if t == DTYPE_LONG {
        scaled_type(desc, "INTEGER")
    } else if t == DTYPE_INT64 || t == DTYPE_QUAD {
        scaled_type(desc, "BIGINT")
    } else if t == DTYPE_REAL {
        String::from_str("REAL")
    } else if t == DTYPE_DOUBLE || t == DTYPE_D_FLOAT {
        String::from_str("DOUBLE PRECISION")
    } else if t == DTYPE_SQL_DATE {
        String::from_str("DATE")
    } else if t == DTYPE_SQL_TIME || t == DTYPE_SQL_TIME_TZ {
        String::from_str("TIME")
    } else if t == DTYPE_TIMESTAMP || t == DTYPE_TIMESTAMP_TZ {
        String::from_str("TIMESTAMP")
    } else if t == DTYPE_BOOLEAN {
        String::from_str("BOOLEAN")
    } else if t == DTYPE_DBKEY {
        String::from_str("BYTEA")
    } else {
        String::from_str("TEXT")
    }
}

/// The line of a column in a `CREATE TABLE` statement.
pub open spec fn column_line(name: Seq<char>, desc: Desc) -> Seq<char> {
    "    "@ + padded(quoted(lowercase(name)), 42) + " "@ + pg_type(desc)
}

/// The descriptor of a column, an empty one where the format does not have it.
pub open spec fn desc_or_zero(descs: Seq<Desc>, fid: usize) -> Desc {
    if fid < descs.len() {
        descs[fid as int]
    } else {
        zero_desc()
    }
}

/// The lines of the columns.
pub open spec fn column_lines(cols: Seq<(usize, Seq<char>)>, descs: Seq<Desc>) -> Seq<Seq<char>> {
    cols.map_values(|c: (usize, Seq<char>)| column_line(c.1, desc_or_zero(descs, c.0)))
}

/// The line of the key.
pub open spec fn key_line(pks: Seq<Seq<char>>) -> Seq<char> {
    "    PRIMARY KEY ("@ + joined(column_names(pks), ", "@) + ")"@
}

/// The statement that creates the table `pg_table`. A table without a known key gets none.
pub open spec fn create_sql(
    pg_table: Seq<char>,
    unlogged: bool,
    cols: Seq<(usize, Seq<char>)>,
    descs: Seq<Desc>,
    pks: Seq<Seq<char>>,
) -> Seq<char> {
    let lines = if pks.len() > 0 {
        column_lines(cols, descs).push(key_line(pks))
    } else {
        column_lines(cols, descs)
    };
    "CREATE "@ + (if unlogged {
        "UNLOGGED "@
    } else {
        ""@
    }) + "TABLE "@ + quoted(pg_table) + " (\n"@ + joined(lines, ",\n"@) + "\n);"@
}

impl Image {
    /// The statement that creates a table, or why its columns are not known.
    pub open spec fn create_table(self, table: Seq<char>, unlogged: bool) -> Option<
        Result<Seq<char>, OdsError>,
    > {
        match (self.layout(table), self.primary_key(table)) {
            (None, _) => None,
            (Some(Err(e)), _) => Some(Err(e)),
            (_, None) => None,
            (Some(Ok((_, descs, cols))), Some(pk)) => Some(
                Ok(
                    create_sql(
                        lowercase(table),
                        unlogged,
                        cols,
                        descs,
                        match pk {
                            Ok(pks) => pks,
                            Err(_) => Seq::empty(),
                        },
                    ),
                ),
            ),
        }
    }
}

fn push_column_lines(cols: &Vec<(usize, String)>, descs: &Vec<Desc>) -> (r: Vec<String>)
    ensures
        texts(r@) == column_lines(column_views(cols@), descs@),
{
    let ghost want = column_lines(column_views(cols@), descs@);
    let mut lines: Vec<String> = Vec::new();
    let mut i: usize = 0;
    while i < cols.len()
        invariant
            i <= cols@.len(),
            want == column_lines(column_views(cols@), descs@),
            texts(lines@) =~= want.take(i as int),
        decreases cols@.len() - i,
    {
        let fid: usize = cols[i].0;
        let zero: Desc = Desc::default_zero();
        let desc: &Desc = if fid < descs.len() {
            &descs[fid]
        } else {
            &zero
        };
        let name: String = to_lowercase(cols[i].1.as_str());
        let mut line: String = String::from_str("    ");
        line.append(pad(quote(name.as_str()), 42).as_str());
        line.append(" ");
        line.append(fb_type_to_pg(desc).as_str());
        let ghost before = texts(lines@);
        lines.push(line);
        assert(want[i as int] == line@);
        assert(texts(lines@) =~= before.push(line@));
        i = i + 1;
    }
    assert(want.take(i as int) =~= want);
    lines
}

/// The statement that creates a table.
pub fn create_table_sql_from(db: &OdsReader, table: &str, unlogged: bool) -> (r: Result<
    String,
    OdsError,
>)
    requires
        db.wf(),
        db@.create_table(table@, unlogged) is Some,
    ensures
        db@.create_table(table@, unlogged) == Some(text_of(r)),
{
    let relation_id: u16 = match db.find_relation_id(table) {
        Ok(rid) => rid,
        Err(e) => {
            return Err(e);
        },
    };
    let descs: Vec<Desc> = match db.read_format(relation_id, u16::MAX) {
        Ok(d) => d,
        Err(e) => {
            return Err(e);
        },
    };
    let cols: Vec<(usize, String)> = match db.read_field_names(relation_id, table) {
        Ok(f) => f,
        Err(_) => numbered_columns(descs.len()),
    };
    let pks: Vec<String> = match db.read_primary_key_fields(table) {
        Ok(p) => p,
        Err(_) => Vec::new(),
    };
    assert(pks@.len() == 0 ==> texts(pks@) =~= Seq::empty());
    assert(texts(pks@).len() == pks@.len());
    let mut lines: Vec<String> = push_column_lines(&cols, &descs);
    let ghost plain = texts(lines@);
    if pks.len() > 0 {
        let names: Vec<String> = quote_key_names(pks.as_slice());
        let mut line: String = String::from_str("    PRIMARY KEY (");
        line.append(join(&names, ", ").as_str());
        line.append(")");
        lines.push(line);
        assert(texts(lines@) =~= plain.push(key_line(texts(pks@))));
    }
    let pg_table: String = to_lowercase(table);
    let mut sql: String = String::from_str("CREATE ");
    sql.append(
        if unlogged {
            "UNLOGGED "
        } else {
            ""
        },
    );
    sql.append("TABLE ");
    sql.append(quote(pg_table.as_str()).as_str());
    sql.append(" (\n");
    sql.append(join(&lines, ",\n").as_str());
    sql.append("\n);");
    Ok(sql)
}

/// The statement that creates the table that the options name, in the database whose bytes
/// are `file`.
pub fn create_table_sql(file: &[u8], args: &Args) -> (r: Result<String, OdsError>)
    requires
        args.table is Some,
        header(file@) is Ok ==> file_image(file@).create_table(args.table->0@, false) is Some,
    ensures
        match header(file@) {
            Err(e) => r == Err::<String, OdsError>(e),
            Ok(_) => file_image(file@).create_table(args.table->0@, false) == Some(text_of(r)),
        },
{
    let db: OdsReader = match OdsReader::open(file) {
        Ok(db) => db,
        Err(e) => {
            return Err(e);
        },
    };
    assert(db@ == file_image(file@));
    match &args.table {
        Some(t) => create_table_sql_from(&db, t.as_str(), false),
        None => Err(OdsError::TableNotFound),
    }
}

/// The database whose bytes are `file`, as far as its header can be read.
pub open spec fn file_image(file: Seq<u8>) -> Image {
    Image { data: file, page_size: header(file)->Ok_0.0, ods_ver: header(file)->Ok_0.1 }
}

} // verus!
