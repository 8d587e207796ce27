//! Where a delta is applied.
use crate::merge::{ApplyTiming, MergeMeta};
use crate::text::texts;
use vstd::prelude::*;

verus! {

/// Why a sink did not take a delta.
#[derive(Debug)]
pub struct SinkError {
    pub message: String,
}

/// A delta that a sink was called with, and what it answered.
pub struct Offer {
    pub pg_table: Seq<char>,
    pub cols_csv: Seq<char>,
    pub pk_csv: Seq<char>,
    pub pk_col_names: Seq<Seq<char>>,
    pub upserts: Seq<u8>,
    pub deletes: Seq<u8>,
    pub n_upserts: u64,
    pub n_deletes: u64,
    pub debug: bool,
    pub answer: Result<ApplyTiming, SinkError>,
}

/// A record of calls with one more call.
pub open spec fn recorded(offers: Option<Seq<Offer>>, o: Offer) -> Option<Seq<Offer>> {
    match offers {
        Some(s) => Some(s.push(o)),
        None => None,
    }
}

/// A place to which deltas go: a PostgreSQL server, or a gateway in front of one.
pub trait DeltaSink {
    /// The deltas that the sink was called with so far, if it keeps a record of them. What is
    /// proved of a sink that keeps one says which calls are made of every sink.
    open spec fn offers(&self) -> Option<Seq<Offer>> {
        None
    }

    /// Applies a delta. The two buffers are whole `COPY ... BINARY` streams, and the
    /// numbers say how many rows they hold.
    fn apply_delta(
        &mut self,
        meta: &MergeMeta,
        upsert_buf: &[u8],
        delete_buf: &[u8],
        n_upserts: u64,
        n_deletes: u64,
        debug: bool,
    ) -> (r: Result<ApplyTiming, SinkError>)
        requires
            n_upserts > 0 || n_deletes > 0,
        ensures
            final(self).offers() == recorded(
                old(self).offers(),
                Offer {
                    pg_table: meta.pg_table@,
                    cols_csv: meta.cols_csv@,
                    pk_csv: meta.pk_csv@,
                    pk_col_names: texts(meta.pk_col_names@),
                    upserts: upsert_buf@,
                    deletes: delete_buf@,
                    n_upserts,
                    n_deletes,
                    debug,
                    answer: r,
                },
            ),
    ;

    /// Sets up the connection again after an error. A sink that keeps no connection has
    /// nothing to set up: unless it says otherwise, it succeeds and stays as it is.
    fn reconnect(&mut self) -> (r: Result<(), SinkError>)
        ensures
            final(self).offers() == old(self).offers(),
        default_ensures
            r is Ok,
            &*final(self) == &*old(self),
    {
        Ok(())
    }
}

/// Whether the connection of a sink with the record `offers` was set up again, and `failure`
/// says why that did not succeed, if it did not.
pub open spec fn reconnected<S: DeltaSink>(
    offers: Option<Seq<Offer>>,
    failure: Option<SinkError>,
) -> bool {
    exists|sink: &mut S, answer: Result<(), SinkError>|
        {
            &&& sink.offers() == offers
            &&& #[trigger] call_ensures(S::reconnect, (sink,), answer)
            &&& failure == match answer {
                Ok(_) => None,
                Err(e) => Some(e),
            }
        }
}

} // verus!
