//! What the agent sends to the gateway, and what it makes of the replies.
use crate::bytes::{sum32, sum64};
use crate::merge::{ApplyTiming, MergeMeta};
use crate::sink::SinkError;
use crate::text::{copy_texts, texts};
use crate::wire::{
    law_delta_bodies, law_request_round_trip, prefixed, prefixed_bytes, request_at, request_bytes,
    write_request_header, write_u32_prefixed, DeltaHeader, Op, Resp, WireError,
};
use vstd::prelude::*;
use vstd::string::StringExecFns;

verus! {

// ── Changes ──────────────────────────────────────────────────────────────────

/// The header of a request that sends changes.
pub fn delta_header(meta: &MergeMeta, n_upserts: u64, n_deletes: u64) -> (r: DeltaHeader)
    ensures
        r.table@ == meta.pg_table@,
        r.cols_csv@ == meta.cols_csv@,
        r.pk_csv@ == meta.pk_csv@,
        texts(r.pk_col_names@) == texts(meta.pk_col_names@),
        r.n_upserts == n_upserts,
        r.n_deletes == n_deletes,
{
    DeltaHeader {
        table: meta.pg_table.clone(),
        cols_csv: meta.cols_csv.clone(),
        pk_csv: meta.pk_csv.clone(),
        pk_col_names: copy_texts(meta.pk_col_names.as_slice()),
        n_upserts,
        n_deletes,
    }
}

/// A whole request that sends changes.
pub open spec fn delta_request_bytes(
    header_json: Seq<u8>,
    upserts: Seq<u8>,
    deletes: Seq<u8>,
) -> Seq<u8> {
    request_bytes(Op::Delta, header_json) + prefixed_bytes(upserts) + prefixed_bytes(deletes)
}

/// Writes a request that sends changes.
pub fn delta_request(header_json: &[u8], upsert_buf: &[u8], delete_buf: &[u8]) -> (r: Vec<u8>)
    ensures
        r@ == delta_request_bytes(header_json@, upsert_buf@, delete_buf@),
{
    let mut w: Vec<u8> = Vec::new();
    write_request_header(&mut w, Op::Delta, header_json);
    write_u32_prefixed(&mut w, upsert_buf);
    write_u32_prefixed(&mut w, delete_buf);
    assert(w@ =~= delta_request_bytes(header_json@, upsert_buf@, delete_buf@));
    w
}

/// The gateway reads back what the agent sent: that changes come, their header, and both
/// bodies, each as it was written.
pub proof fn law_delta_request_is_read_back(
    header_json: Seq<u8>,
    upserts: Seq<u8>,
    deletes: Seq<u8>,
)
    requires
        header_json.len() < 0x1_0000_0000,
        upserts.len() < 0x1_0000_0000,
        deletes.len() < 0x1_0000_0000,
    ensures
        ({
            let s = delta_request_bytes(header_json, upserts, deletes);
            let body = request_bytes(Op::Delta, header_json).len() as int;
            let mid = body + prefixed_bytes(upserts).len();
            &&& request_at(s, 0) == Ok::<(Op, Seq<u8>, int), WireError>(
                (Op::Delta, header_json, body),
            )
            &&& prefixed(s, body) == Ok::<(Seq<u8>, int), WireError>((upserts, mid))
            &&& prefixed(s, mid) == Ok::<(Seq<u8>, int), WireError>((deletes, s.len() as int))
        }),
{
    let s = delta_request_bytes(header_json, upserts, deletes);
    let head = request_bytes(Op::Delta, header_json);
    let bodies = prefixed_bytes(upserts) + prefixed_bytes(deletes);
    law_request_round_trip(Seq::empty(), Op::Delta, header_json, bodies);
    assert(Seq::<u8>::empty() + head =~= head);
    assert(Seq::<u8>::empty() + head + bodies =~= s);
    law_delta_bodies(head, upserts, deletes);
}

pub open spec fn no_timing() -> ApplyTiming {
    ApplyTiming {
        setup_ns: 0,
        copy_start_ns: 0,
        copy_finish_ns: 0,
        del_copy_ns: 0,
        delete_sql_ns: 0,
        upsert_sql_ns: 0,
        cleanup_ns: 0,
        commit_ns: 0,
    }
}

/// What a reply to changes means. The gateway does not say how long it took.
pub fn delta_outcome(resp: &Resp) -> (r: Result<ApplyTiming, SinkError>)
    ensures
        match resp.error {
            Some(e) => r is Err && r->Err_0.message@ == "gateway rejected delta: "@ + e@,
            None => r is Ok && r->Ok_0 == no_timing(),
        },
{
    match &resp.error {
        Some(e) => {
            let mut message: String = String::from_str("gateway rejected delta: ");
            message.append(e.as_str());
            Err(SinkError { message })
        },
        None => Ok(ApplyTiming::default()),
    }
}

// ── Whole tables ─────────────────────────────────────────────────────────────

/// What was pushed of a table: the rows that were read, those that the gateway took, and
/// the bytes that were sent.
#[derive(Clone, Copy, PartialEq, Eq, Debug, Structural)]
pub struct PushStats {
    pub rows_read: u64,
    pub rows_sent: u64,
    pub bytes: u64,
}

/// What a reply to a whole table means.
pub fn full_outcome(resp: &Resp, rows_read: u64, bytes: u64) -> (r: Result<PushStats, String>)
    ensures
        match resp.error {
            Some(e) => r is Err && r->Err_0@ == "gateway rejected: "@ + e@,
            None => r == Ok::<PushStats, String>(
                PushStats { rows_read, rows_sent: resp.rows, bytes },
            ),
        },
{
    match &resp.error {
        Some(e) => {
            let mut message: String = String::from_str("gateway rejected: ");
            message.append(e.as_str());
            Err(message)
        },
        None => Ok(PushStats { rows_read, rows_sent: resp.rows, bytes }),
    }
}

/// The sums over several tables. They stop at the greatest number.
#[derive(Clone, Copy, PartialEq, Eq, Debug, Structural)]
pub struct PushTotals {
    pub ok: u32,
    pub failed: u32,
    pub rows_read: u64,
    pub rows_sent: u64,
    pub bytes_sent: u64,
}

impl PushTotals {
    /// The sums with one more table, which was pushed or not.
    pub open spec fn with(self, outcome: Option<PushStats>) -> PushTotals {
        match outcome {
            Some(s) => PushTotals {
                ok: sum32(self.ok, 1),
                failed: self.failed,
                rows_read: sum64(self.rows_read, s.rows_read),
                rows_sent: sum64(self.rows_sent, s.rows_sent),
                bytes_sent: sum64(self.bytes_sent, s.bytes),
            },
            None => PushTotals { failed: sum32(self.failed, 1), ..self },
        }
    }

    pub fn new() -> (r: Self)
        ensures
            r == (PushTotals { ok: 0, failed: 0, rows_read: 0, rows_sent: 0, bytes_sent: 0 }),
    {
        PushTotals { ok: 0, failed: 0, rows_read: 0, rows_sent: 0, bytes_sent: 0 }
    }

    /// Takes note of how a table turned out.
    pub fn record(&mut self, outcome: Option<PushStats>)
        ensures
            *final(self) == old(self).with(outcome),
    {
        match outcome {
            Some(s) => {
                self.ok = self.ok.saturating_add(1);
                self.rows_read = self.rows_read.saturating_add(s.rows_read);
                self.rows_sent = self.rows_sent.saturating_add(s.rows_sent);
                self.bytes_sent = self.bytes_sent.saturating_add(s.bytes);
            },
            None => {
                self.failed = self.failed.saturating_add(1);
            },
        }
    }

    /// What the agent does after all tables were pushed: it fails if one of them did, and
    /// otherwise it watches if it is asked to.
    pub fn after(&self, watch: bool) -> (r: AfterPush)
        ensures
            r == if self.failed > 0 {
                AfterPush::Fail
            } else if watch {
                AfterPush::Watch
            } else {
                AfterPush::Stop
            },
    {
        if self.failed > 0 {
            AfterPush::Fail
        } else if watch {
            AfterPush::Watch
        } else {
            AfterPush::Stop
        }
    }
}

/// What the agent does after all tables were pushed.
#[derive(Clone, Copy, PartialEq, Eq, Debug, Structural)]
pub enum AfterPush {
    Fail,
    Watch,
    Stop,
}

/// The sums over the outcomes of several tables.
pub open spec fn push_totals(outcomes: Seq<Option<PushStats>>) -> PushTotals
    decreases outcomes.len(),
{
    if outcomes.len() == 0 {
        PushTotals { ok: 0, failed: 0, rows_read: 0, rows_sent: 0, bytes_sent: 0 }
    } else {
        push_totals(outcomes.drop_last()).with(outcomes.last())
    }
}

/// One table that could not be pushed is enough for the agent to fail: it does not start to
/// watch on top of a table that is missing.
pub proof fn law_failed_push_is_not_watched(outcomes: Seq<Option<PushStats>>, i: int)
    requires
        0 <= i < outcomes.len(),
        outcomes[i] is None,
    ensures
        push_totals(outcomes).failed > 0,
    decreases outcomes.len(),
{
    if i < outcomes.len() - 1 {
        assert(outcomes.drop_last()[i] == outcomes[i]);
        law_failed_push_is_not_watched(outcomes.drop_last(), i);
    }
}

} // verus!
