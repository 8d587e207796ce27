//! Reading a database that may be damaged.
//!
//! Each function here first finds out whether what it is asked for can be read, and answers
//! `None` where it cannot.
use crate::blob::{bytes_of, BlobId};
use crate::bytes::get_u16;
use crate::catalog::{column_views, count16, in_byte_order, text_of, texts_of};
use crate::cli::Args;
use crate::extract::{copy_slots, copy_stream, field_ids, progress_marks, write_copy_stream};
use crate::inspect::{
    directory_fits, inspect_relation, inspectable, inspectable_pages, inspection_shows, Inspection,
};
use crate::migrate::{
    drop_table_sql, load_shows, migrate, migrate_all, migrate_table, plan_load, Load, Migration,
    TableRun,
};
use crate::ods::{header, Desc, OdsError, OdsReader, PAG_DATA};
use crate::readable::lemma_relations;
use crate::schema::{create_table_sql, create_table_sql_from, file_image};
use crate::text::texts;
use vstd::prelude::*;

verus! {

/// The user tables, in the order of their bytes.
pub fn try_list_tables(db: &OdsReader) -> (r: Option<Vec<String>>)
    requires
        db.wf(),
    ensures
        r is Some <==> db@.tables() is Some,
        r is Some ==> {
            &&& texts(r->0@).to_multiset() == db@.tables()->0.to_multiset()
            &&& in_byte_order(texts(r->0@))
        },
{
    proof {
        lemma_relations(db@, 0, Seq::empty(), Seq::empty());
    }
    if db.relation_is_whole(6) {
        Some(db.list_tables())
    } else {
        None
    }
}

/// The types of the constraints of a table.
pub fn try_list_constraints(db: &OdsReader, table: &str) -> (r: Option<Vec<String>>)
    requires
        db.wf(),
    ensures
        r is Some <==> db@.constraints(table@) is Some,
        r is Some ==> db@.constraints(table@) == Some(texts(r->0@)),
{
    proof {
        lemma_relations(db@, 0, table@, Seq::empty());
    }
    if db.relation_is_whole(22) {
        Some(db.list_constraints(table))
    } else {
        None
    }
}

/// The columns of the primary key of a table.
pub fn try_primary_key(db: &OdsReader, table: &str) -> (r: Option<Result<Vec<String>, OdsError>>)
    requires
        db.wf(),
    ensures
        r is Some <==> db@.primary_key(table@) is Some,
        r is Some ==> db@.primary_key(table@) == Some(texts_of(r->0)),
{
    if db.primary_key_fits(table) {
        Some(db.read_primary_key_fields(table))
    } else {
        None
    }
}

/// A blob.
pub fn try_blob(db: &OdsReader, bid: BlobId) -> (r: Option<Result<Vec<u8>, OdsError>>)
    requires
        db.wf(),
    ensures
        r is Some <==> db@.blob(bid) is Some,
        r is Some ==> db@.blob(bid) == Some(bytes_of(r->0)),
{
    if db.blob_fits(bid) {
        Some(db.read_blob_from_bid(bid))
    } else {
        None
    }
}

/// The statement that creates a table.
pub fn try_create_table(db: &OdsReader, table: &str, unlogged: bool) -> (r: Option<
    Result<String, OdsError>,
>)
    requires
        db.wf(),
    ensures
        r is Some <==> db@.create_table(table@, unlogged) is Some,
        r is Some ==> db@.create_table(table@, unlogged) == Some(text_of(r->0)),
{
    if db.table_fits(table) {
        Some(create_table_sql_from(db, table, unlogged))
    } else {
        None
    }
}

/// The statement that creates the table that the options name, in the database whose bytes
/// are `file`.
pub fn try_create_table_sql(file: &[u8], args: &Args) -> (r: Option<Result<String, OdsError>>)
    requires
        args.table is Some,
    ensures
        match header(file@) {
            Err(e) => r == Some(Err::<String, OdsError>(e)),
            Ok(_) => {
                let img = file_image(file@);
                &&& r is Some <==> img.create_table(args.table->0@, false) is Some
                &&& r is Some ==> img.create_table(args.table->0@, false) == Some(text_of(r->0))
            },
        },
{
    let fits: bool = match OdsReader::open(file) {
        Ok(db) => {
            assert(db@ == file_image(file@));
            match &args.table {
                Some(t) => db.table_fits(t.as_str()),
                None => false,
            }
        },
        Err(e) => {
            return Some(Err(e));
        },
    };
    if fits {
        Some(create_table_sql(file, args))
    } else {
        None
    }
}

/// The id of a table, its columns in the order of its target, and their number.
pub fn try_copy_slots(db: &OdsReader, table: &str) -> (r: Option<
    Result<(u16, Vec<(usize, String)>, i16), OdsError>,
>)
    requires
        db.wf(),
    ensures
        match r {
            None => db@.layout(table@) is None,
            Some(Err(e)) => db@.layout(table@) == Some(
                Err::<(u16, Seq<Desc>, Seq<(usize, Seq<char>)>), OdsError>(e),
            ),
            Some(Ok((rid, fields, n))) => {
                &&& db@.layout(table@) is Some
                &&& db@.layout(table@)->0 is Ok
                &&& (db@.layout(table@)->0->Ok_0).0 == rid
                &&& (db@.layout(table@)->0->Ok_0).2 == column_views(fields@)
                &&& n == count16(fields@.len() as int)
            },
        },
{
    if !db.layout_fits(table) {
        return None;
    }
    match db.find_relation_id(table) {
        Err(e) => Some(Err(e)),
        Ok(rid) => match copy_slots(db, rid, table) {
            Err(e) => Some(Err(e)),
            Ok((fields, n)) => Some(Ok((rid, fields, n))),
        },
    }
}

/// What loading a table needs.
pub fn try_plan_load(db: &OdsReader, table: &str, unlogged: bool) -> (r: Option<
    Result<Load, OdsError>,
>)
    requires
        db.wf(),
    ensures
        r is Some <==> db@.loadable(table@, unlogged),
        r is Some ==> load_shows(db@, table@, unlogged, r->0),
{
    if db.table_fits(table) {
        Some(plan_load(db, table, unlogged))
    } else {
        None
    }
}

/// What the migration of a table does.
pub fn try_migrate_table(db: &OdsReader, table: &str, drop: bool, unlogged: bool) -> (r: Option<
    Migration,
>)
    requires
        db.wf(),
    ensures
        r is Some <==> db@.loadable(table@, unlogged),
        r is Some ==> {
            &&& r->0.drop_sql is Some <==> drop
            &&& drop ==> r->0.drop_sql->0@ == drop_table_sql(table@)
            &&& load_shows(db@, table@, unlogged, r->0.load)
        },
{
    if db.table_fits(table) {
        Some(migrate_table(db, table, drop, unlogged))
    } else {
        None
    }
}

/// What the migration of the table does that the options name.
pub fn try_migrate(db: &OdsReader, args: &Args) -> (r: Option<Migration>)
    requires
        db.wf(),
        args.table is Some,
    ensures
        r is Some <==> db@.loadable(args.table->0@, args.unlogged),
        r is Some ==> {
            &&& r->0.drop_sql is Some <==> args.drop
            &&& args.drop ==> r->0.drop_sql->0@ == drop_table_sql(args.table->0@)
            &&& load_shows(db@, args.table->0@, args.unlogged, r->0.load)
        },
{
    let fits: bool = match &args.table {
        Some(t) => db.table_fits(t.as_str()),
        None => false,
    };
    if fits {
        Some(migrate(db, args))
    } else {
        None
    }
}

/// Starts a run over all tables of a database, if it has any.
pub fn try_migrate_all(db: &OdsReader) -> (r: Option<Option<TableRun>>)
    requires
        db.wf(),
    ensures
        r is Some <==> db@.tables() is Some,
        r is Some ==> match r->0 {
            Some(run) => {
                &&& run.wf()
                &&& run.names().len() > 0
                &&& run.past().len() == 0
                &&& in_byte_order(run.names())
                &&& run.names().to_multiset() == db@.tables()->0.to_multiset()
            },
            None => db@.tables()->0.len() == 0,
        },
{
    proof {
        lemma_relations(db@, 0, Seq::empty(), Seq::empty());
    }
    if db.relation_is_whole(6) {
        Some(migrate_all(db))
    } else {
        None
    }
}

/// Writes the whole stream of a table, and the numbers of rows at which progress is due.
/// Nothing is written where a row cannot be read.
pub fn try_copy_stream(
    db: &OdsReader,
    relation_id: u16,
    field_order: &[(usize, String)],
    n_fields: i16,
    out: &mut Vec<u8>,
    progress: &mut Vec<u64>,
) -> (r: Option<u64>)
    requires
        db.wf(),
    ensures
        ({
            let rows = db@.copy_rows(relation_id, field_ids(field_order@), n_fields);
            if rows is Some {
                &&& r == Some(rows->0.len() as u64)
                &&& final(out)@ == old(out)@ + copy_stream(rows->0)
                &&& final(progress)@ == old(progress)@ + progress_marks(rows->0.len())
            } else {
                r is None && final(out)@ == old(out)@ && final(progress)@ == old(progress)@
            }
        }),
{
    if db.rows_fit(relation_id, field_order, n_fields) {
        Some(write_copy_stream(db, relation_id, field_order, n_fields, out, progress))
    } else {
        None
    }
}

fn pages_inspectable(db: &OdsReader, ps: &Vec<u32>) -> (r: bool)
    requires
        db.wf(),
    ensures
        r == inspectable_pages(db@, ps@),
{
    let mut i: usize = 0;
    while i < ps.len()
        invariant
            db.wf(),
            i <= ps@.len(),
            inspectable_pages(db@, ps@.take(i as int)),
        decreases ps@.len() - i,
    {
        let n: u32 = ps[i];
        if !db.contains_page(n) {
            return false;
        }
        let p: &[u8] = db.page(n);
        if p[0] == PAG_DATA && 24 + 4 * get_u16(p, 22) as usize > p.len() {
            assert(!directory_fits(db@.page(ps@[i as int] as int)));
            return false;
        }
        assert forall|k: int| 0 <= k < i + 1 implies db@.has_page(
            #[trigger] ps@.take(i + 1)[k] as int,
        ) && (db@.page(ps@.take(i + 1)[k] as int)[0] == PAG_DATA ==> directory_fits(
            db@.page(ps@.take(i + 1)[k] as int),
        )) by {
            if k < i {
                assert(ps@.take(i + 1)[k] == ps@.take(i as int)[k]);
            }
        }
        i = i + 1;
    }
    assert(ps@.take(i as int) =~= ps@);
    true
}

/// What a table holds, page by page.
pub fn try_inspect_relation(db: &OdsReader, table: &str) -> (r: Option<
    Result<Inspection, OdsError>,
>)
    requires
        db.wf(),
    ensures
        r is Some <==> inspectable(db@, table@),
        r is Some ==> match r->0 {
            Ok(x) => inspection_shows(db@, table@, x),
            Err(e) => db@.relation_id(table@) == Some(Err::<u16, OdsError>(e)),
        },
{
    match db.try_relation_id(table) {
        None => {
            return None;
        },
        Some(Err(e)) => {
            return Some(Err(e));
        },
        Some(Ok(rid)) => match db.try_first_pp(rid) {
            None => {
                return None;
            },
            Some(None) => {},
            Some(Some(pp)) => match db.try_data_pages(pp) {
                None => {
                    return None;
                },
                Some(ps) => {
                    if !pages_inspectable(db, &ps) {
                        return None;
                    }
                },
            },
        },
    }
    Some(inspect_relation(db, table))
}

} // verus!
