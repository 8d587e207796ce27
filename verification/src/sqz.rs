//! The run-length encoding of record data.
//!
//! A compressed record is a sequence of runs. Each run starts with a signed control
//! byte `c`:
//!
//! * `c >= 0`: the next `c` bytes stand for themselves;
//! * `c == -1`: a 16-bit count and a byte to repeat that often;
//! * `c == -2`: a 32-bit count and a byte to repeat that often;
//! * any other `c < 0`: a byte to repeat `-c` times.
use crate::bytes::{append, get_u16, get_u32, le16, le32, signed, to_i8};
use vstd::prelude::*;
use vstd::slice::slice_subrange;

verus! {

/// The longest record that is decompressed.
pub const MAX_RECORD_SIZE: usize = 262144;

/// `n` copies of `b`.
pub open spec fn repeat(b: u8, n: int) -> Seq<u8> {
    Seq::new(n as nat, |i: int| b)
}

/// Whether the control byte `c` announces bytes that stand for themselves.
pub open spec fn is_literal(c: u8) -> bool {
    c < 0x80
}

/// The first run of the non-empty input `s`, decompressed, and how many bytes of the
/// input it takes; `None` where the input ends inside it.
pub open spec fn first_run(s: Seq<u8>) -> Option<(Seq<u8>, int)> {
    let c = signed(s[0] as int, 8);
    if c >= 0 {
        if 1 + c <= s.len() {
            Some((s.subrange(1, 1 + c), 1 + c))
        } else {
            None
        }
    } else if c == -1 {
        if 4 <= s.len() {
            Some((repeat(s[3], le16(s, 1)), 4))
        } else {
            None
        }
    } else if c == -2 {
        if 6 <= s.len() {
            Some((repeat(s[5], le32(s, 1)), 6))
        } else {
            None
        }
    } else {
        if 2 <= s.len() {
            Some((repeat(s[1], -c), 2))
        } else {
            None
        }
    }
}

/// What decompressing `s` behind `out` gives: whether `s` is well formed and the record
/// fits, and the bytes that were written when the end or the fault was reached. A run of
/// repeated bytes that does not fit is not written, a literal one is.
pub open spec fn sqz(s: Seq<u8>, out: Seq<u8>) -> (bool, Seq<u8>)
    decreases s.len(),
{
    if s.len() == 0 {
        (true, out)
    } else {
        match first_run(s) {
            None => (false, out),
            Some((run, used)) => if out.len() + run.len() > MAX_RECORD_SIZE {
                (
                    false,
                    if is_literal(s[0]) {
                        out + run
                    } else {
                        out
                    },
                )
            } else {
                sqz(s.skip(used), out + run)
            },
        }
    }
}

/// The record that `s` decompresses to, `None` where `s` is malformed or too long.
pub open spec fn unpacked(s: Seq<u8>) -> Option<Seq<u8>> {
    let (ok, out) = sqz(s, Seq::empty());
    if ok {
        Some(out)
    } else {
        None
    }
}

/// Decompresses into `out`, whose former contents are dropped. Returns false on
/// malformed input.
pub fn decompress_into(input: &[u8], out: &mut Vec<u8>) -> (ok: bool)
    ensures
        (ok, final(out)@) == sqz(input@, Seq::empty()),
{
    out.clear();
    decompress_impl(input, out)
}

/// Decompresses into a new vector; `None` if the input is malformed or the output
/// exceeds `MAX_RECORD_SIZE`.
pub fn decompress(input: &[u8]) -> (r: Option<Vec<u8>>)
    ensures
        match r {
            Some(v) => unpacked(input@) == Some(v@),
            None => unpacked(input@) is None,
        },
{
    let mut out: Vec<u8> = Vec::new();
    if decompress_impl(input, &mut out) {
        Some(out)
    } else {
        None
    }
}

/// Appends `n` copies of `b`.
fn push_repeated(out: &mut Vec<u8>, b: u8, n: usize)
    requires
        old(out)@.len() + n <= MAX_RECORD_SIZE,
    ensures
        final(out)@ == old(out)@ + repeat(b, n as int),
{
    let len: usize = out.len() + n;
    out.resize(len, b);
    assert(out@ =~= old(out)@ + repeat(b, n as int));
}

fn decompress_impl(input: &[u8], out: &mut Vec<u8>) -> (ok: bool)
    requires
        old(out)@.len() <= MAX_RECORD_SIZE,
    ensures
        (ok, final(out)@) == sqz(input@, old(out)@),
{
    let mut i: usize = 0;
    assert(input@.skip(0) =~= input@);
    while i < input.len()
        invariant
            i <= input@.len(),
            out@.len() <= MAX_RECORD_SIZE,
            sqz(input@, old(out)@) == sqz(input@.skip(i as int), out@),
        decreases input@.len() - i,
    {
        let ghost rest = input@.skip(i as int);
        let ghost before = out@;
        let left: usize = input.len() - i;
        assert(rest[0] == input@[i as int]);
        let ctrl: i8 = to_i8(input[i]);
        if ctrl >= 0 {
            let n: usize = ctrl as usize;
            if left - 1 < n {
                return false;
            }
            append(out, slice_subrange(input, i + 1, i + 1 + n));
            proof {
                assert(input@.subrange(i + 1, i + 1 + n) =~= rest.subrange(1, 1 + n as int));
                assert(rest.skip(1 + n as int) =~= input@.skip(i + 1 + n));
            }
            if out.len() > MAX_RECORD_SIZE {
                return false;
            }
            i = i + 1 + n;
        } else {
            let count: usize;
            let used: usize;
            if ctrl == -1 {
                if left < 4 {
                    return false;
                }
                count = get_u16(input, i + 1) as usize;
                used = 4;
                assert(le16(rest, 1) == le16(input@, i + 1));
            } else if ctrl == -2 {
                if left < 6 {
                    return false;
                }
                let c: u32 = get_u32(input, i + 1);
                assert(le32(rest, 1) == le32(input@, i + 1));
                if c > 262144u32 {
                    return false;
                }
                count = c as usize;
                used = 6;
            } else {
                if left < 2 {
                    return false;
                }
                count = (-(ctrl as i16)) as usize;
                used = 2;
            }
            let byte: u8 = input[i + used - 1];
            assert(rest[used - 1] == byte);
            if out.len() + count > MAX_RECORD_SIZE {
                return false;
            }
            push_repeated(out, byte, count);
            assert(rest.skip(used as int) =~= input@.skip(i + used));
            i = i + used;
        }
    }
    true
}

/// A record never exceeds `MAX_RECORD_SIZE`.
pub proof fn law_unpacked_is_bounded(s: Seq<u8>)
    ensures
        unpacked(s) is Some ==> unpacked(s)->0.len() <= MAX_RECORD_SIZE,
{
    lemma_sqz_bounded(s, Seq::empty());
}

proof fn lemma_sqz_bounded(s: Seq<u8>, out: Seq<u8>)
    requires
        out.len() <= MAX_RECORD_SIZE,
    ensures
        sqz(s, out).0 ==> sqz(s, out).1.len() <= MAX_RECORD_SIZE,
    decreases s.len(),
{
    if s.len() > 0 {
        if let Some((run, used)) = first_run(s) {
            if out.len() + run.len() <= MAX_RECORD_SIZE {
                lemma_sqz_bounded(s.skip(used), out + run);
            }
        }
    }
}

/// A record of at most 127 bytes reads back from a literal run that holds it.
pub proof fn law_literal_run(data: Seq<u8>)
    requires
        data.len() <= 127,
    ensures
        unpacked(seq![data.len() as u8] + data) == Some(data),
{
    let s = seq![data.len() as u8] + data;
    assert(s.subrange(1, 1 + data.len() as int) =~= data);
    assert(Seq::<u8>::empty() + data =~= data);
    assert(s.skip(1 + data.len() as int).len() == 0);
    reveal_with_fuel(sqz, 2);
}

} // verus!
