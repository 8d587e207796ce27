# fdb-extract

Reads Firebird databases page by page, without a Firebird server, and loads what it finds
into PostgreSQL: whole tables as `COPY ... BINARY` streams, and changes as they happen.

The library under `src/` is written in Verus. Every function states what it does, and the
verifier proves it. The programs around it, under `app/`, map files, talk to PostgreSQL and
to each other, and print.

## The library

| Module | What it holds |
|---|---|
| `ods` | pages, pointer pages, slots, records and their fragments |
| `sqz` | the run-length encoding of records |
| `blob` | blobs, and the record formats that are stored in them |
| `catalog` | tables, columns, constraints and indexes from the system relations |
| `extract`, `ieee`, `win1252` | fields and rows in the format of `COPY ... BINARY` |
| `schema`, `migrate` | target tables, and loading them |
| `cdc`, `scan`, `scan_laws`, `flatpk` | what changed in a table since a transaction |
| `merge`, `sink` | how a delta is applied to a target table |
| `sync`, `snapshot`, `watch` | cycle after cycle, and what is kept between them |
| `wire`, `push`, `gateway` | requests and replies between an agent and a gateway |
| `certgen`, `authority`, `x509` | certificates of a private authority, and what they say |
| `tlsauth`, `tlsconf` | TLS on both sides |
| `readable`, `ready`, `checked` | whether a damaged file can be read, and reading one |
| `cli`, `inspect` | what the command line asks for |
| `bytes`, `text`, `names`, `maps`, `clock` | what the others share |

An open database is an `OdsReader` over the bytes of the file. In contracts it is an
`Image`: those bytes, the page size and the version of the structure. A function that would
have to read outside the file asks in its `requires` that it does not; `Option` in the
functions on `Image` says where that is. `readable` and `ready` decide it for a given file,
and the functions in `checked` read where it can be done and answer `None` where not.

Properties that span functions are proved as functions whose names start with `law_`.

What the library trusts is marked `external_body`, `assume_specification` or `uninterp`, and
the comment above each says what is taken for granted: parts of the standard library in
`text`, `ods`, `catalog` and `clock`; rcgen in `authority`; x509-parser in `x509`;
rustls-pemfile and rustls in `tlsauth` and `tlsconf`. A place to which deltas go is a
`DeltaSink`, which its users implement; which calls are made of it is proved for one that
keeps a record of them.

## The programs

One binary serves as `fdb-extract`, `fdb-agent` and `fdb-ingest`, by the name it is called
by.

```
fdb-extract --database mydb.fdb --list-tables
fdb-extract --database mydb.fdb --table CLIENTES --output clientes.bin
fdb-extract --database mydb.fdb --all-tables --pg-database mydb --drop
fdb-extract --database mydb.fdb --watch --pg-database mydb

fdb-ingest ca-init
fdb-ingest issue-server --san ingest.example.com
fdb-ingest issue-client --tenant acme
fdb-ingest serve --tenant acme=replica_acme

fdb-agent --gateway ingest.example.com:8443 --server-name ingest.example.com \
  --ca ca.crt --cert acme.crt --key acme.key --database mydb.fdb --all-tables --watch
```
