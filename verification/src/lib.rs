//! Reads Firebird databases page by page, without a server, and turns what it finds into
//! what PostgreSQL takes: whole tables, and the changes since a transaction.
//!
//! A database is an [`ods::OdsReader`] over the bytes of its file; in contracts it is an
//! [`ods::Image`]. From there it goes on to [`catalog`] and [`extract`] for whole tables, to
//! [`scan`], [`sync`] and [`watch`] for changes, and to [`wire`], [`push`] and [`gateway`]
//! where the tables are in another place.
//!
//! What reads a database asks in its contract that the file does not lead outside itself.
//! [`checked`] holds the same for files of which that is not known; [`readable`] and [`ready`]
//! find it out.
pub mod authority;
pub mod blob;
pub mod bytes;
pub mod catalog;
pub mod catalog_laws;
pub mod cdc;
pub mod certgen;
pub mod checked;
pub mod cli;
pub mod clock;
pub mod copy_laws;
pub mod delta_laws;
pub mod extract;
pub mod flatpk;
pub mod gateway;
pub mod ieee;
pub mod ieee_laws;
pub mod inspect;
pub mod inspect_laws;
pub mod maps;
pub mod merge;
pub mod migrate;
pub mod names;
pub mod ods;
pub mod protocol_laws;
pub mod push;
pub mod readable;
pub mod ready;
pub mod record_laws;
pub mod relation_laws;
pub mod scan;
pub mod scan_laws;
pub mod schema;
pub mod service_laws;
pub mod sink;
pub mod snapshot;
pub mod sql_laws;
pub mod sqz;
pub mod sync;
pub mod sync_laws;
pub mod text;
pub mod text_laws;
pub mod tlsauth;
pub mod tlsconf;
pub mod value_laws;
pub mod watch;
pub mod watch_laws;
pub mod win1252;
pub mod wire;
pub mod x509;
