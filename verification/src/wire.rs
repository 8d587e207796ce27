//! The framing of requests and replies between the agent and the gateway.
//!
//! ```text
//! request: magic(4) version(1) op(1) length(4) header  body
//!   full body:  frames, each length(4) bytes, ended by a frame of length 0
//!   delta body: length(4) upserts  length(4) deletes
//! reply:   magic(4) status(1) length(4) reply
//! ```
//!
//! Lengths are unsigned and stand most significant byte first. Headers and replies are
//! JSON; here they are bytes.
use crate::bytes::{
    append, be32, be32_at, copy_range, get_u32_be, len32, lemma_be32_round_trip, push_be32_u,
};
use vstd::prelude::*;

verus! {

/// `FDBI`.
pub const MAGIC: [u8; 4] = [70u8, 68u8, 66u8, 73u8];

pub const VERSION: u8 = 1;

/// Why bytes cannot be read.
#[derive(Clone, Copy, PartialEq, Eq, Debug, Structural)]
pub enum WireError {
    BadMagic,
    UnsupportedVersion,
    UnknownOp,
    /// The bytes end where `missing` more are needed.
    UnexpectedEof { missing: u64 },
    /// A body ends before its length.
    ShortBody,
}

/// What a request asks for.
#[derive(Clone, Copy, PartialEq, Eq, Debug, Structural)]
pub enum Op {
    /// Load a whole table.
    Full,
    /// Apply changes to a table.
    Delta,
}

pub open spec fn op_byte(op: Op) -> u8 {
    match op {
        Op::Full => 1,
        Op::Delta => 2,
    }
}

impl Op {
    pub fn to_u8(self) -> (r: u8)
        ensures
            r == op_byte(self),
    {
        match self {
            Op::Full => 1,
            Op::Delta => 2,
        }
    }

    pub fn from_u8(b: u8) -> (r: Result<Op, WireError>)
        ensures
            match r {
                Ok(op) => b == op_byte(op),
                Err(e) => e == WireError::UnknownOp && b != 1 && b != 2,
            },
    {
        match b {
            1 => Ok(Op::Full),
            2 => Ok(Op::Delta),
            _ => Err(WireError::UnknownOp),
        }
    }
}

/// The header of a request to load a table.
pub struct FullHeader {
    pub table: String,
    pub create_sql: String,
}

/// The header of a request to apply changes to a table.
pub struct DeltaHeader {
    pub table: String,
    pub cols_csv: String,
    pub pk_csv: String,
    pub pk_col_names: Vec<String>,
    pub n_upserts: u64,
    pub n_deletes: u64,
}

/// A reply.
#[derive(Clone)]
pub struct Resp {
    pub error: Option<String>,
    pub rows: u64,
    pub upserts: u64,
    pub deletes: u64,
}

impl Default for Resp {
    fn default() -> (r: Resp)
        ensures
            r == (Resp { error: None, rows: 0, upserts: 0, deletes: 0 }),
    {
        Resp { error: None, rows: 0, upserts: 0, deletes: 0 }
    }
}

impl Resp {
    /// The reply that something went wrong.
    pub fn err(msg: String) -> (r: Resp)
        ensures
            r == (Resp { error: Some(msg), rows: 0, upserts: 0, deletes: 0 }),
    {
        Resp { error: Some(msg), rows: 0, upserts: 0, deletes: 0 }
    }
}

// ── Reading bytes ────────────────────────────────────────────────────────────

/// Bytes that are read from the front.
pub struct ByteReader<'a> {
    pub data: &'a [u8],
    pub pos: usize,
}

/// Where `n` bytes from `i` on end, if they are there.
pub open spec fn exact(s: Seq<u8>, i: int, n: int) -> Result<int, WireError> {
    if i + n <= s.len() {
        Ok(i + n)
    } else {
        Err(WireError::UnexpectedEof { missing: (i + n - s.len()) as u64 })
    }
}

impl<'a> ByteReader<'a> {
    pub open spec fn wf(self) -> bool {
        self.pos <= self.data@.len()
    }

    /// What is still to be read.
    pub open spec fn rest(self) -> Seq<u8> {
        self.data@.skip(self.pos as int)
    }

    pub fn new(data: &'a [u8]) -> (r: Self)
        ensures
            r.wf(),
            r.data@ == data@,
            r.pos == 0,
    {
        ByteReader { data, pos: 0 }
    }

    /// Reads `n` bytes, or none where fewer are left.
    pub fn read_exact(&mut self, n: u32) -> (r: Result<Vec<u8>, WireError>)
        requires
            old(self).wf(),
        ensures
            final(self).wf(),
            final(self).data == old(self).data,
            match exact(old(self).data@, old(self).pos as int, n as int) {
                Ok(k) => {
                    &&& r is Ok
                    &&& r->Ok_0@ == old(self).data@.subrange(old(self).pos as int, k)
                    &&& final(self).pos == k
                },
                Err(e) => r == Err::<Vec<u8>, WireError>(e) && final(self).pos == old(self).pos,
            },
    {
        let left: usize = self.data.len() - self.pos;
        if (n as u64) > left as u64 {
            return Err(WireError::UnexpectedEof { missing: n as u64 - left as u64 });
        }
        let end: usize = self.pos + n as usize;
        let v: Vec<u8> = copy_range(self.data, self.pos, end);
        self.pos = end;
        Ok(v)
    }

    /// Reads at most `max` bytes, as many as are left.
    pub fn read(&mut self, max: usize) -> (r: Vec<u8>)
        requires
            old(self).wf(),
        ensures
            final(self).wf(),
            final(self).data == old(self).data,
            r@.len() == if max < old(self).rest().len() {
                max as int
            } else {
                old(self).rest().len() as int
            },
            r@ == old(self).rest().take(r@.len() as int),
            final(self).pos == old(self).pos + r@.len(),
    {
        let left: usize = self.data.len() - self.pos;
        let n: usize = if max < left {
            max
        } else {
            left
        };
        let end: usize = self.pos + n;
        let v: Vec<u8> = copy_range(self.data, self.pos, end);
        assert(v@ =~= self.rest().take(n as int));
        self.pos = end;
        v
    }
}

// ── Bytes behind their length ────────────────────────────────────────────────

/// Bytes behind their length. Of a length of 2^32 or more only the remainder is there.
pub open spec fn prefixed_bytes(b: Seq<u8>) -> Seq<u8> {
    be32(b.len() as int) + b
}

pub fn write_u32_prefixed(w: &mut Vec<u8>, b: &[u8])
    ensures
        final(w)@ == old(w)@ + prefixed_bytes(b@),
{
    let n: u32 = len32(b.len());
    assert(be32(n as int) == be32(b@.len() as int));
    push_be32_u(w, n);
    append(w, b);
    assert(w@ =~= old(w)@ + prefixed_bytes(b@));
}

/// The bytes behind the length at `i`, and where they end.
pub open spec fn prefixed(s: Seq<u8>, i: int) -> Result<(Seq<u8>, int), WireError> {
    match exact(s, i, 4) {
        Err(e) => Err(e),
        Ok(j) => match exact(s, j, be32_at(s, i)) {
            Err(e) => Err(e),
            Ok(k) => Ok((s.subrange(j, k), k)),
        },
    }
}

/// Whether bytes were read as `found` says: on success up to where they end, otherwise not
/// at all.
pub open spec fn read_shows(
    found: Result<(Seq<u8>, int), WireError>,
    r: Result<Vec<u8>, WireError>,
    before: ByteReader,
    after: ByteReader,
) -> bool {
    &&& after.wf()
    &&& after.data == before.data
    &&& match found {
        Ok((b, k)) => r is Ok && r->Ok_0@ == b && after.pos == k,
        Err(e) => r == Err::<Vec<u8>, WireError>(e) && after.pos == before.pos,
    }
}

pub fn read_u32_prefixed(r: &mut ByteReader) -> (b: Result<Vec<u8>, WireError>)
    requires
        old(r).wf(),
    ensures
        read_shows(prefixed(old(r).data@, old(r).pos as int), b, *old(r), *final(r)),
{
    let start: usize = r.pos;
    let l: Vec<u8> = match r.read_exact(4) {
        Ok(l) => l,
        Err(e) => {
            return Err(e);
        },
    };
    let n: u32 = get_u32_be(l.as_slice(), 0);
    assert(n == be32_at(r.data@, start as int));
    match r.read_exact(n) {
        Ok(v) => Ok(v),
        Err(e) => {
            r.pos = start;
            Err(e)
        },
    }
}

/// The length of a body that a stream announces with these four bytes.
pub fn body_len(l: [u8; 4]) -> (r: u64)
    ensures
        r == be32_at(l@, 0),
{
    get_u32_be(&l, 0) as u64
}

/// Whether all `n` bytes of a body were copied.
pub fn copied_whole(n: u64, copied: u64) -> (r: Result<u64, WireError>)
    ensures
        r == if copied == n {
            Ok::<u64, WireError>(n)
        } else {
            Err(WireError::ShortBody)
        },
{
    if copied != n {
        return Err(WireError::ShortBody);
    }
    Ok(copied)
}

/// Copies the bytes behind a length, and says how many. Where fewer are there, they are
/// copied all the same, and that is an error.
pub fn copy_u32_prefixed(r: &mut ByteReader, w: &mut Vec<u8>) -> (n: Result<u64, WireError>)
    requires
        old(r).wf(),
    ensures
        final(r).wf(),
        final(r).data == old(r).data,
        match prefixed(old(r).data@, old(r).pos as int) {
            Ok((b, k)) => {
                &&& n == Ok::<u64, WireError>(b.len() as u64)
                &&& final(w)@ == old(w)@ + b
                &&& final(r).pos == k
            },
            Err(e) => if old(r).pos + 4 <= old(r).data@.len() {
                &&& n == Err::<u64, WireError>(WireError::ShortBody)
                &&& final(w)@ == old(w)@ + old(r).data@.skip(old(r).pos + 4)
                &&& final(r).pos == old(r).data@.len()
            } else {
                n == Err::<u64, WireError>(e) && final(w)@ == old(w)@ && final(r).pos == old(r).pos
            },
        },
{
    let ghost s = r.data@;
    let ghost i = r.pos as int;
    let l: Vec<u8> = match r.read_exact(4) {
        Ok(l) => l,
        Err(e) => {
            return Err(e);
        },
    };
    let n: u64 = body_len([l[0], l[1], l[2], l[3]]);
    assert(n == be32_at(s, i));
    let max: usize = if n > usize::MAX as u64 {
        usize::MAX
    } else {
        n as usize
    };
    let got: Vec<u8> = r.read(max);
    append(w, got.as_slice());
    let copied: u64 = got.len() as u64;
    assert(s.skip(i + 4).len() == s.len() - i - 4);
    proof {
        if i + 4 + n <= s.len() {
            assert(got@ =~= s.subrange(i + 4, i + 4 + n));
        } else {
            assert(got@ =~= s.skip(i + 4));
        }
    }
    copied_whole(n, copied)
}

// ── The header of a request ──────────────────────────────────────────────────

pub open spec fn request_bytes(op: Op, header_json: Seq<u8>) -> Seq<u8> {
    MAGIC@ + seq![VERSION, op_byte(op)] + prefixed_bytes(header_json)
}

pub fn write_request_header(w: &mut Vec<u8>, op: Op, header_json: &[u8])
    ensures
        final(w)@ == old(w)@ + request_bytes(op, header_json@),
{
    append(w, &MAGIC);
    w.push(VERSION);
    w.push(op.to_u8());
    write_u32_prefixed(w, header_json);
    assert(w@ =~= old(w)@ + request_bytes(op, header_json@));
}

/// What the header of a request at `i` asks for, its JSON, and where it ends.
pub open spec fn request_at(s: Seq<u8>, i: int) -> Result<(Op, Seq<u8>, int), WireError> {
    match exact(s, i, 4) {
        Err(e) => Err(e),
        Ok(j) => if s.subrange(i, j) != MAGIC@ {
            Err(WireError::BadMagic)
        } else {
            match exact(s, j, 2) {
                Err(e) => Err(e),
                Ok(k) => if s[j] != VERSION {
                    Err(WireError::UnsupportedVersion)
                } else if s[j + 1] != 1 && s[j + 1] != 2 {
                    Err(WireError::UnknownOp)
                } else {
                    match prefixed(s, k) {
                        Err(e) => Err(e),
                        Ok((b, end)) => Ok(
                            (
                                if s[j + 1] == 1 {
                                    Op::Full
                                } else {
                                    Op::Delta
                                },
                                b,
                                end,
                            ),
                        ),
                    }
                },
            }
        },
    }
}

fn is_magic(m: &[u8]) -> (r: bool)
    requires
        m@.len() == 4,
    ensures
        r == (m@ == MAGIC@),
{
    let r: bool = m[0] == MAGIC[0] && m[1] == MAGIC[1] && m[2] == MAGIC[2] && m[3] == MAGIC[3];
    assert(r ==> m@ =~= MAGIC@);
    r
}

pub fn read_request_header(r: &mut ByteReader) -> (h: Result<(Op, Vec<u8>), WireError>)
    requires
        old(r).wf(),
    ensures
        final(r).wf(),
        final(r).data == old(r).data,
        match request_at(old(r).data@, old(r).pos as int) {
            Ok((op, b, k)) => {
                &&& h is Ok
                &&& h->Ok_0.0 == op
                &&& h->Ok_0.1@ == b
                &&& final(r).pos == k
            },
            Err(e) => h is Err && h->Err_0 == e,
        },
{
    let ghost s = r.data@;
    let ghost i = r.pos as int;
    let m: Vec<u8> = match r.read_exact(4) {
        Ok(m) => m,
        Err(e) => {
            return Err(e);
        },
    };
    if !is_magic(m.as_slice()) {
        return Err(WireError::BadMagic);
    }
    let vo: Vec<u8> = match r.read_exact(2) {
        Ok(vo) => vo,
        Err(e) => {
            return Err(e);
        },
    };
    assert(vo@[0] == s[i + 4] && vo@[1] == s[i + 5]);
    if vo[0] != VERSION {
        return Err(WireError::UnsupportedVersion);
    }
    let op: Op = match Op::from_u8(vo[1]) {
        Ok(op) => op,
        Err(e) => {
            return Err(e);
        },
    };
    match read_u32_prefixed(r) {
        Ok(header) => Ok((op, header)),
        Err(e) => Err(e),
    }
}

// ── Replies ──────────────────────────────────────────────────────────────────

/// A reply whose JSON is `json`. Its status is 1 where it tells of an error.
pub open spec fn response_bytes(failed: bool, json: Seq<u8>) -> Seq<u8> {
    MAGIC@ + seq![
        if failed {
            1u8
        } else {
            0u8
        },
    ] + prefixed_bytes(json)
}

pub fn write_response(w: &mut Vec<u8>, resp: &Resp, json: &[u8])
    ensures
        final(w)@ == old(w)@ + response_bytes(resp.error is Some, json@),
{
    append(w, &MAGIC);
    w.push(
        if resp.error.is_some() {
            1u8
        } else {
            0u8
        },
    );
    write_u32_prefixed(w, json);
    assert(w@ =~= old(w)@ + response_bytes(resp.error is Some, json@));
}

/// The JSON of the reply at `i`, and where it ends. The status is not looked at: the JSON
/// tells of an error by itself.
pub open spec fn response_at(s: Seq<u8>, i: int) -> Result<(Seq<u8>, int), WireError> {
    match exact(s, i, 4) {
        Err(e) => Err(e),
        Ok(j) => if s.subrange(i, j) != MAGIC@ {
            Err(WireError::BadMagic)
        } else {
            match exact(s, j, 1) {
                Err(e) => Err(e),
                Ok(k) => prefixed(s, k),
            }
        },
    }
}

pub fn read_response(r: &mut ByteReader) -> (json: Result<Vec<u8>, WireError>)
    requires
        old(r).wf(),
    ensures
        final(r).wf(),
        final(r).data == old(r).data,
        match response_at(old(r).data@, old(r).pos as int) {
            Ok((b, k)) => json is Ok && json->Ok_0@ == b && final(r).pos == k,
            Err(e) => json is Err && json->Err_0 == e,
        },
{
    let m: Vec<u8> = match r.read_exact(4) {
        Ok(m) => m,
        Err(e) => {
            return Err(e);
        },
    };
    if !is_magic(m.as_slice()) {
        return Err(WireError::BadMagic);
    }
    match r.read_exact(1) {
        Ok(_) => {},
        Err(e) => {
            return Err(e);
        },
    }
    read_u32_prefixed(r)
}

// ── Frames ───────────────────────────────────────────────────────────────────

/// A piece as a frame. Nothing is no frame at all: it would end the body.
pub open spec fn frame(b: Seq<u8>) -> Seq<u8> {
    if b.len() == 0 {
        Seq::empty()
    } else {
        prefixed_bytes(b)
    }
}

/// Frames what is written to it, piece by piece.
pub struct ChunkWriter {
    inner: Vec<u8>,
    written: u64,
}

impl ChunkWriter {
    /// The bytes that were written so far and not yet taken.
    pub closed spec fn out(self) -> Seq<u8> {
        self.inner@
    }

    /// How many bytes of frames were written so far.
    pub closed spec fn count(self) -> u64 {
        self.written
    }

    /// Writes behind the bytes of `inner`.
    pub fn new(inner: Vec<u8>) -> (r: Self)
        ensures
            r.out() == inner@,
            r.count() == 0,
    {
        ChunkWriter { inner, written: 0 }
    }

    /// How many bytes were written so far, the lengths of the frames among them. The end
    /// of the body is not.
    pub fn bytes_written(&self) -> (r: u64)
        ensures
            r == self.count(),
    {
        self.written
    }

    /// Writes a piece as a frame, and says how many of its bytes were taken: all of them.
    pub fn write(&mut self, buf: &[u8]) -> (r: usize)
        requires
            old(self).count() + 4 + buf@.len() <= u64::MAX,
        ensures
            r == buf@.len(),
            final(self).out() == old(self).out() + frame(buf@),
            final(self).count() == old(self).count() + frame(buf@).len(),
    {
        if buf.len() == 0 {
            assert(self.inner@ + frame(buf@) =~= self.inner@);
            return 0;
        }
        write_u32_prefixed(&mut self.inner, buf);
        self.written = self.written + 4 + buf.len() as u64;
        buf.len()
    }

    /// Hands over what was written since the last time, so that it can be sent.
    pub fn take(&mut self) -> (r: Vec<u8>)
        ensures
            r@ == old(self).out(),
            final(self).out() == Seq::<u8>::empty(),
            final(self).count() == old(self).count(),
    {
        let mut r: Vec<u8> = Vec::new();
        std::mem::swap(&mut self.inner, &mut r);
        r
    }

    /// Ends the body, and hands over what was not yet taken.
    pub fn finish(self) -> (r: Vec<u8>)
        ensures
            r@ == self.out() + be32(0),
    {
        let mut inner: Vec<u8> = self.inner;
        push_be32_u(&mut inner, 0);
        inner
    }
}

/// What a reader of frames needs next.
#[derive(Clone, Copy, PartialEq, Eq, Debug, Structural)]
pub enum Want {
    /// Nothing: the body has ended.
    Nothing,
    /// The four bytes of the length of a frame.
    Length,
    /// At most so many bytes.
    Bytes(usize),
}

/// Reads frames, and gives the bytes in them.
pub struct ChunkReader<R> {
    inner: R,
    remaining: usize,
    done: bool,
}

impl<R> ChunkReader<R> {
    /// Where the frames are read from.
    pub closed spec fn source(self) -> R {
        self.inner
    }

    /// How many bytes of the current frame are still to come.
    pub closed spec fn left(self) -> usize {
        self.remaining
    }

    /// Whether the body has ended.
    pub closed spec fn ended(self) -> bool {
        self.done
    }

    pub fn new(inner: R) -> (r: Self)
        ensures
            r.source() == inner,
            r.left() == 0,
            !r.ended(),
    {
        ChunkReader { inner, remaining: 0, done: false }
    }

    pub fn into_inner(self) -> (r: R)
        ensures
            r == self.source(),
    {
        self.inner
    }

    pub fn is_done(&self) -> (r: bool)
        ensures
            r == self.ended(),
    {
        self.done
    }

    /// What is needed next in order to give at most `max` bytes.
    pub fn want(&self, max: usize) -> (r: Want)
        ensures
            r == if self.ended() {
                Want::Nothing
            } else if self.left() == 0 {
                Want::Length
            } else if self.left() < max {
                Want::Bytes(self.left())
            } else {
                Want::Bytes(max)
            },
    {
        if self.done {
            Want::Nothing
        } else if self.remaining == 0 {
            Want::Length
        } else if self.remaining < max {
            Want::Bytes(self.remaining)
        } else {
            Want::Bytes(max)
        }
    }

    /// Takes note of the length of the next frame. A length of 0 ends the body.
    pub fn got_length(&mut self, n: u32)
        requires
            !old(self).ended(),
            old(self).left() == 0,
            n <= usize::MAX,
        ensures
            final(self).source() == old(self).source(),
            final(self).left() == n,
            final(self).ended() == (n == 0),
    {
        if n == 0 {
            self.done = true;
        } else {
            self.remaining = n as usize;
        }
    }

    /// Takes note of `n` bytes of the current frame. None means that the source has ended
    /// too early.
    pub fn got_bytes(&mut self, n: usize) -> (r: Result<usize, WireError>)
        requires
            !old(self).ended(),
            n <= old(self).left(),
        ensures
            final(self).source() == old(self).source(),
            !final(self).ended(),
            final(self).left() == old(self).left() - n,
            r == if n == 0 {
                Err::<usize, WireError>(WireError::ShortBody)
            } else {
                Ok(n)
            },
    {
        if n == 0 {
            return Err(WireError::ShortBody);
        }
        self.remaining = self.remaining - n;
        Ok(n)
    }
}

/// The bytes in the frames at the front of `s`, of which the first has `left` bytes to
/// come, and what follows the end of the body.
pub open spec fn unframed(s: Seq<u8>, left: int) -> Option<(Seq<u8>, Seq<u8>)>
    decreases s.len(), left,
{
    if left > 0 {
        if left > s.len() {
            None
        } else {
            match unframed(s.skip(left), 0) {
                Some((b, rest)) => Some((s.take(left) + b, rest)),
                None => None,
            }
        }
    } else if s.len() < 4 {
        None
    } else if be32_at(s, 0) == 0 {
        Some((Seq::empty(), s.skip(4)))
    } else {
        unframed(s.skip(4), be32_at(s, 0))
    }
}

/// What a reader gives that reads from `s` and has `left` bytes of a frame to come: at most
/// `max` bytes of the frame, how many are to come after them, and where the source then
/// stands. It gives nothing where the body ends, and fails where the source does.
pub open spec fn given(s: Seq<u8>, left: int, max: int) -> Option<(Seq<u8>, int, Seq<u8>)> {
    if left > 0 {
        let n = if left <= max && left <= s.len() {
            left
        } else if max <= s.len() {
            max
        } else {
            s.len() as int
        };
        if n == 0 {
            None
        } else {
            Some((s.take(n), left - n, s.skip(n)))
        }
    } else if s.len() < 4 {
        None
    } else {
        Some((Seq::empty(), be32_at(s, 0), s.skip(4)))
    }
}

/// What a reader gives that starts at a frame or within one.
pub open spec fn next_bytes(s: Seq<u8>, left: int, max: int) -> Option<(Seq<u8>, int, Seq<u8>)> {
    if left > 0 {
        given(s, left, max)
    } else {
        match given(s, 0, max) {
            None => None,
            Some((_, n, rest)) => if n == 0 {
                Some((Seq::empty(), 0, rest))
            } else {
                given(rest, n, max)
            },
        }
    }
}

impl<'a> ChunkReader<ByteReader<'a>> {
    /// The bytes that are still to be given, and what follows the end of the body.
    pub open spec fn to_come(self) -> Option<(Seq<u8>, Seq<u8>)> {
        if self.ended() {
            Some((Seq::empty(), self.source().rest()))
        } else {
            unframed(self.source().rest(), self.left() as int)
        }
    }

    /// Gives at most `max` bytes, and none when the body has ended.
    pub fn read(&mut self, max: usize) -> (r: Result<Vec<u8>, WireError>)
        requires
            old(self).source().wf(),
        ensures
            final(self).source().wf(),
            final(self).source().data == old(self).source().data,
            !old(self).ended() ==> match next_bytes(
                old(self).source().rest(),
                old(self).left() as int,
                max as int,
            ) {
                Some((b, left, rest)) => {
                    &&& r is Ok
                    &&& r->Ok_0@ == b
                    &&& final(self).left() == left
                    &&& final(self).source().rest() == rest
                },
                None => r == Err::<Vec<u8>, WireError>(WireError::ShortBody),
            },
            r is Ok && old(self).to_come() is Some ==> {
                &&& final(self).to_come() is Some
                &&& old(self).to_come()->0 == (
                    r->Ok_0@ + (final(self).to_come()->0).0,
                    (final(self).to_come()->0).1,
                )
            },
            r is Ok ==> r->Ok_0@.len() <= max && (r->Ok_0@.len() == 0 <==> final(self).ended()),
            r is Err ==> (max == 0 || old(self).to_come() is None),
            r is Err ==> !final(self).ended(),
            old(self).to_come() is None ==> final(self).to_come() is None,
            old(self).ended() ==> r is Ok && *final(self) == *old(self),
    {
        if self.done {
            assert(Seq::<u8>::empty() + Seq::<u8>::empty() =~= Seq::<u8>::empty());
            return Ok(Vec::new());
        }
        let ghost start = self.inner.rest();
        if self.remaining == 0 {
            let ghost pos = self.inner.pos as int;
            let l: Vec<u8> = match self.inner.read_exact(4) {
                Ok(l) => l,
                Err(_) => {
                    return Err(WireError::ShortBody);
                },
            };
            assert(start.len() >= 4);
            assert(l@ =~= start.take(4));
            let n: u32 = get_u32_be(l.as_slice(), 0);
            assert(n == be32_at(start, 0));
            assert(self.inner.rest() =~= start.skip(4));
            if n == 0 {
                self.done = true;
                assert(Seq::<u8>::empty() + Seq::<u8>::empty() =~= Seq::<u8>::empty());
                return Ok(Vec::new());
            }
            self.remaining = n as usize;
        }
        let ghost mid = self.inner.rest();
        let ghost left = self.remaining as int;
        assert(unframed(start, old(self).left() as int) == unframed(mid, left));
        let to: usize = if self.remaining < max {
            self.remaining
        } else {
            max
        };
        let got: Vec<u8> = self.inner.read(to);
        let n: usize = got.len();
        if n == 0 {
            return Err(WireError::ShortBody);
        }
        self.remaining = self.remaining - n;
        proof {
            assert(self.inner.rest() =~= mid.skip(n as int));
            lemma_unframed_part(mid, left, n as int);
        }
        Ok(got)
    }
}

/// The first bytes of a frame can be taken by themselves.
proof fn lemma_unframed_part(s: Seq<u8>, left: int, n: int)
    requires
        0 < n <= left,
        n <= s.len(),
    ensures
        match unframed(s, left) {
            Some((b, rest)) => unframed(s.skip(n), left - n) is Some && ({
                let next = unframed(s.skip(n), left - n)->0;
                b == s.take(n) + next.0 && rest == next.1
            }),
            None => unframed(s.skip(n), left - n) is None,
        },
{
    if left <= s.len() {
        assert(s.skip(n).skip(left - n) =~= s.skip(left));
        if n < left {
            assert(s.take(n) + s.skip(n).take(left - n) =~= s.take(left));
            match unframed(s.skip(left), 0) {
                Some((b, rest)) => {
                    assert(s.take(left) + b =~= s.take(n) + (s.skip(n).take(left - n) + b));
                },
                None => {},
            }
        }
    }
}

// ── What is read is what was written ─────────────────────────────────────────

/// Bytes that were written behind their length read back as themselves, wherever they
/// stand, as long as the length fits its field.
pub proof fn law_prefixed_round_trip(before: Seq<u8>, b: Seq<u8>, after: Seq<u8>)
    requires
        b.len() < 0x1_0000_0000,
    ensures
        prefixed(before + prefixed_bytes(b) + after, before.len() as int) == Ok::<
            (Seq<u8>, int),
            WireError,
        >((b, (before + prefixed_bytes(b)).len() as int)),
{
    let s = before + prefixed_bytes(b) + after;
    let i = before.len() as int;
    assert(s.subrange(i, i + 4) =~= be32(b.len() as int));
    lemma_be32_round_trip(b.len() as int, s, i);
    assert(s.subrange(i + 4, i + 4 + b.len()) =~= b);
}

/// The header of a request that was written reads back as itself.
pub proof fn law_request_round_trip(before: Seq<u8>, op: Op, header: Seq<u8>, after: Seq<u8>)
    requires
        header.len() < 0x1_0000_0000,
    ensures
        request_at(before + request_bytes(op, header) + after, before.len() as int) == Ok::<
            (Op, Seq<u8>, int),
            WireError,
        >((op, header, (before + request_bytes(op, header)).len() as int)),
{
    let s = before + request_bytes(op, header) + after;
    let i = before.len() as int;
    let front = before + MAGIC@ + seq![VERSION, op_byte(op)];
    assert(s =~= front + prefixed_bytes(header) + after);
    law_prefixed_round_trip(front, header, after);
    assert(s.subrange(i, i + 4) =~= MAGIC@);
    assert(s[i + 4] == front[i + 4] && s[i + 5] == front[i + 5]);
}

/// A reply that was written reads back as itself.
pub proof fn law_response_round_trip(before: Seq<u8>, failed: bool, json: Seq<u8>, after: Seq<u8>)
    requires
        json.len() < 0x1_0000_0000,
    ensures
        response_at(before + response_bytes(failed, json) + after, before.len() as int) == Ok::<
            (Seq<u8>, int),
            WireError,
        >((json, (before + response_bytes(failed, json)).len() as int)),
{
    let s = before + response_bytes(failed, json) + after;
    let i = before.len() as int;
    let status: u8 = if failed {
        1
    } else {
        0
    };
    let front = before + MAGIC@ + seq![status];
    assert(s =~= front + prefixed_bytes(json) + after);
    law_prefixed_round_trip(front, json, after);
    assert(s.subrange(i, i + 4) =~= MAGIC@);
}

/// The two bodies of a delta read back one after the other, each as itself.
pub proof fn law_delta_bodies(before: Seq<u8>, upserts: Seq<u8>, deletes: Seq<u8>)
    requires
        upserts.len() < 0x1_0000_0000,
        deletes.len() < 0x1_0000_0000,
    ensures
        ({
            let s = before + prefixed_bytes(upserts) + prefixed_bytes(deletes);
            let mid = (before + prefixed_bytes(upserts)).len() as int;
            &&& prefixed(s, before.len() as int) == Ok::<(Seq<u8>, int), WireError>((upserts, mid))
            &&& prefixed(s, mid) == Ok::<(Seq<u8>, int), WireError>((deletes, s.len() as int))
        }),
{
    let s = before + prefixed_bytes(upserts) + prefixed_bytes(deletes);
    law_prefixed_round_trip(before, upserts, prefixed_bytes(deletes));
    law_prefixed_round_trip(before + prefixed_bytes(upserts), deletes, Seq::empty());
    assert(s + Seq::<u8>::empty() =~= s);
}

/// The frames of several pieces.
pub open spec fn frames(pieces: Seq<Seq<u8>>) -> Seq<u8>
    decreases pieces.len(),
{
    if pieces.len() == 0 {
        Seq::empty()
    } else {
        frame(pieces[0]) + frames(pieces.drop_first())
    }
}

/// Several pieces, one behind the other.
pub open spec fn pieces_joined(pieces: Seq<Seq<u8>>) -> Seq<u8>
    decreases pieces.len(),
{
    if pieces.len() == 0 {
        Seq::empty()
    } else {
        pieces[0] + pieces_joined(pieces.drop_first())
    }
}

/// What was written in pieces and ended reads back as the pieces, one behind the other,
/// and what follows the end is left alone.
pub proof fn law_frames_round_trip(pieces: Seq<Seq<u8>>, after: Seq<u8>)
    requires
        forall|i: int| 0 <= i < pieces.len() ==> (#[trigger] pieces[i]).len() < 0x1_0000_0000,
    ensures
        unframed(frames(pieces) + be32(0) + after, 0) == Some((pieces_joined(pieces), after)),
    decreases pieces.len(),
{
    let s = frames(pieces) + be32(0) + after;
    if pieces.len() == 0 {
        assert(s =~= be32(0) + after);
        assert(s.subrange(0, 4) =~= be32(0));
        lemma_be32_round_trip(0, s, 0);
        assert(s.skip(4) =~= after);
    } else {
        let b = pieces[0];
        let rest = pieces.drop_first();
        let tail = frames(rest) + be32(0) + after;
        law_frames_round_trip(rest, after);
        if b.len() == 0 {
            assert(s =~= tail);
            assert(pieces_joined(pieces) =~= pieces_joined(rest));
        } else {
            assert(s =~= be32(b.len() as int) + b + tail);
            assert(s.subrange(0, 4) =~= be32(b.len() as int));
            lemma_be32_round_trip(b.len() as int, s, 0);
            assert(s.skip(4) =~= b + tail);
            assert((b + tail).skip(b.len() as int) =~= tail);
            assert((b + tail).take(b.len() as int) =~= b);
            assert(unframed(b + tail, b.len() as int) == Some((b + pieces_joined(rest), after)));
        }
    }
}

/// The frames of pieces, and then one more.
proof fn lemma_frames_push(pieces: Seq<Seq<u8>>, b: Seq<u8>)
    ensures
        frames(pieces.push(b)) == frames(pieces) + frame(b),
    decreases pieces.len(),
{
    let more = pieces.push(b);
    if pieces.len() == 0 {
        assert(more.drop_first() =~= pieces);
        assert(frames(more) =~= frames(pieces) + frame(b));
    } else {
        let rest = pieces.drop_first();
        assert(more.drop_first() =~= rest.push(b));
        lemma_frames_push(rest, b);
        assert(frames(more) =~= frames(pieces) + frame(b));
    }
}

/// The lengths of pieces with the four bytes in front of each, without the empty ones.
pub open spec fn frame_lengths(pieces: Seq<Seq<u8>>) -> nat
    decreases pieces.len(),
{
    if pieces.len() == 0 {
        0
    } else {
        frame_lengths(pieces.drop_last()) + if pieces.last().len() == 0 {
            0nat
        } else {
            4 + pieces.last().len()
        }
    }
}

/// Whether a writer went from `a` to `b` by writing a piece.
pub open spec fn wrote(a: ChunkWriter, b: ChunkWriter, piece: Seq<u8>) -> bool {
    &&& b.out() == a.out() + frame(piece)
    &&& b.count() == a.count() + frame(piece).len()
}

/// Over a run of writes the count is the sum of the frames, which is the number of bytes that
/// were written: a piece that is empty adds nothing, so it cannot end the body.
pub proof fn law_bytes_written(ws: Seq<ChunkWriter>, pieces: Seq<Seq<u8>>)
    requires
        ws.len() == pieces.len() + 1,
        forall|i: int| 0 <= i < pieces.len() ==> wrote(ws[i], ws[i + 1], #[trigger] pieces[i]),
    ensures
        ws.last().out() == ws[0].out() + frames(pieces),
        ws.last().count() == ws[0].count() + frame_lengths(pieces),
        frames(pieces).len() == frame_lengths(pieces),
    decreases pieces.len(),
{
    if pieces.len() == 0 {
        assert(ws[0].out() + frames(pieces) =~= ws[0].out());
    } else {
        let front = pieces.drop_last();
        let n = front.len() as int;
        assert forall|i: int| 0 <= i < front.len() implies wrote(
            ws.drop_last()[i],
            ws.drop_last()[i + 1],
            #[trigger] front[i],
        ) by {
            assert(front[i] == pieces[i]);
        }
        law_bytes_written(ws.drop_last(), front);
        lemma_frames_push(front, pieces.last());
        assert(front.push(pieces.last()) =~= pieces);
        assert(wrote(ws[n], ws[n + 1], pieces[n]));
        assert(ws.last().out() =~= ws[0].out() + frames(pieces));
    }
}

/// A body that is cut off never ends: reading it comes to an error, not to the end of the
/// body.
pub proof fn law_cut_off_body_does_not_end(pieces: Seq<Seq<u8>>, n: int)
    requires
        forall|i: int| 0 <= i < pieces.len() ==> (#[trigger] pieces[i]).len() < 0x1_0000_0000,
        0 <= n < (frames(pieces) + be32(0)).len(),
    ensures
        unframed((frames(pieces) + be32(0)).take(n), 0) is None,
    decreases pieces.len(),
{
    let whole = frames(pieces) + be32(0);
    let s = whole.take(n);
    if pieces.len() > 0 {
        let b = pieces[0];
        let rest = pieces.drop_first();
        let tail = frames(rest) + be32(0);
        if b.len() == 0 {
            assert(whole =~= tail);
            law_cut_off_body_does_not_end(rest, n);
        } else {
            assert(whole =~= be32(b.len() as int) + b + tail);
            if n >= 4 {
                assert(s.subrange(0, 4) =~= be32(b.len() as int));
                lemma_be32_round_trip(b.len() as int, s, 0);
                assert(unframed(s, 0) == unframed(s.skip(4), b.len() as int));
                if n >= 4 + b.len() {
                    law_cut_off_body_does_not_end(rest, n - 4 - b.len());
                    assert(s.skip(4).skip(b.len() as int) =~= tail.take(n - 4 - b.len()));
                }
            }
        }
    }
}

/// A header that is cut off asks for no more bytes than it has: whoever reads as many bytes
/// as are missing never reads past its end.
pub proof fn law_header_is_not_overread(op: Op, header: Seq<u8>, n: int)
    requires
        header.len() < 0x1_0000_0000,
        0 <= n < request_bytes(op, header).len(),
    ensures
        match request_at(request_bytes(op, header).take(n), 0) {
            Err(WireError::UnexpectedEof { missing }) => 0 < missing && n + missing
                <= request_bytes(op, header).len(),
            _ => false,
        },
{
    let whole = request_bytes(op, header);
    let s = whole.take(n);
    law_request_round_trip(Seq::empty(), op, header, Seq::empty());
    assert(Seq::<u8>::empty() + whole + Seq::<u8>::empty() =~= whole);
    if n >= 4 {
        assert(s.subrange(0, 4) =~= MAGIC@);
    }
    if n >= 6 {
        assert(s[4] == whole[4] && s[5] == whole[5]);
    }
    if n >= 10 {
        assert(whole.subrange(6, 10) =~= be32(header.len() as int));
        assert(s.subrange(6, 10) =~= whole.subrange(6, 10));
        lemma_be32_round_trip(header.len() as int, s, 6);
    }
}

} // verus!
