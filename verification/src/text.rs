//! Text: trimming, comparing and building strings.
use vstd::prelude::*;
use vstd::string::{StrSliceExecFns, StringExecFns};
use vstd::utf8::{decode_utf8, valid_utf8};

verus! {

// ── What the standard library is trusted with ────────────────────────────────

/// `core::str::from_utf8`: bytes are text exactly where they are well-formed UTF-8, and
/// then they are the text that they encode.
#[verifier::external_body]
pub(crate) fn from_utf8(b: &[u8]) -> (r: Option<&str>)
    ensures
        match r {
            Some(s) => valid_utf8(b@) && s@ == decode_utf8(b@),
            None => !valid_utf8(b@),
        },
{
    core::str::from_utf8(b).ok()
}

/// What `str::to_uppercase` gives for a text.
pub uninterp spec fn uppercase(s: Seq<char>) -> Seq<char>;

/// `str::to_uppercase`: the result depends on the text alone.
#[verifier::external_body]
pub(crate) fn to_uppercase(s: &str) -> (r: String)
    ensures
        r@ == uppercase(s@),
{
    s.to_uppercase()
}

/// What `str::to_lowercase` gives for a text.
pub uninterp spec fn lowercase(s: Seq<char>) -> Seq<char>;

/// `str::to_lowercase`: the result depends on the text alone.
#[verifier::external_body]
pub(crate) fn to_lowercase(s: &str) -> (r: String)
    ensures
        r@ == lowercase(s@),
{
    s.to_lowercase()
}

/// `String::push` appends one character.
pub assume_specification[ String::push ](s: &mut String, c: char)
    ensures
        final(s)@ == old(s)@.push(c),
;

// ── Characters ───────────────────────────────────────────────────────────────

/// The characters of a text.
pub fn chars_of(s: &str) -> (r: Vec<char>)
    ensures
        r@ == s@,
{
    let mut v: Vec<char> = Vec::new();
    for c in iter: s.chars()
        invariant
            v@ == iter.seq().take(iter.index()),
    {
        v.push(c);
    }
    v
}

/// Whether two texts are equal.
pub fn same_text(a: &str, b: &str) -> (r: bool)
    ensures
        r == (a@ == b@),
{
    let x: Vec<char> = chars_of(a);
    let y: Vec<char> = chars_of(b);
    if x.len() != y.len() {
        return false;
    }
    let mut i: usize = 0;
    while i < x.len()
        invariant
            x@ == a@,
            y@ == b@,
            i <= x@.len() == y@.len(),
            forall|k: int| 0 <= k < i ==> x@[k] == y@[k],
        decreases x@.len() - i,
    {
        if x[i] != y[i] {
            return false;
        }
        i = i + 1;
    }
    assert(x@ =~= y@);
    true
}

/// A letter of ASCII as a small letter, any other character as it is.
pub open spec fn ascii_fold(c: char) -> char {
    if 'A' <= c <= 'Z' {
        (c as int + 32) as char
    } else {
        c
    }
}

/// Whether two texts are equal but for the case of ASCII letters.
pub open spec fn eq_ascii_fold(a: Seq<char>, b: Seq<char>) -> bool {
    a.len() == b.len() && forall|i: int| 0 <= i < a.len() ==> ascii_fold(a[i]) == ascii_fold(b[i])
}

fn fold_char(c: char) -> (r: u32)
    ensures
        r == ascii_fold(c) as u32,
{
    if 'A' <= c && c <= 'Z' {
        c as u32 + 32
    } else {
        c as u32
    }
}

pub fn eq_ignore_ascii_case(a: &str, b: &str) -> (r: bool)
    ensures
        r == eq_ascii_fold(a@, b@),
{
    let x: Vec<char> = chars_of(a);
    let y: Vec<char> = chars_of(b);
    if x.len() != y.len() {
        return false;
    }
    let mut i: usize = 0;
    while i < x.len()
        invariant
            x@ == a@,
            y@ == b@,
            i <= x@.len() == y@.len(),
            forall|k: int| 0 <= k < i ==> ascii_fold(x@[k]) == ascii_fold(y@[k]),
        decreases x@.len() - i,
    {
        if fold_char(x[i]) != fold_char(y[i]) {
            return false;
        }
        i = i + 1;
    }
    true
}

// ── Trimming ─────────────────────────────────────────────────────────────────

/// The characters with the Unicode property `White_Space`.
pub open spec fn is_white_space(c: char) -> bool {
    let n = c as int;
    ||| 0x09 <= n <= 0x0d
    ||| n == 0x20
    ||| n == 0x85
    ||| n == 0xa0
    ||| n == 0x1680
    ||| 0x2000 <= n <= 0x200a
    ||| n == 0x2028
    ||| n == 0x2029
    ||| n == 0x202f
    ||| n == 0x205f
    ||| n == 0x3000
}

/// What counts as padding around a name.
#[derive(Clone, Copy)]
pub enum Pad {
    White,
    Nul,
    NulOrSpace,
}

impl Pad {
    pub open spec fn pads(self, c: char) -> bool {
        match self {
            Pad::White => is_white_space(c),
            Pad::Nul => c == '\0',
            Pad::NulOrSpace => c == '\0' || c == ' ',
        }
    }

    fn is_padding(self, c: char) -> (r: bool)
        ensures
            r == self.pads(c),
    {
        let n: u32 = c as u32;
        match self {
            Pad::White => {
                (0x09 <= n && n <= 0x0d) || n == 0x20 || n == 0x85 || n == 0xa0 || n == 0x1680 || (
                0x2000 <= n && n <= 0x200a) || n == 0x2028 || n == 0x2029 || n == 0x202f || n
                    == 0x205f || n == 0x3000
            },
            Pad::Nul => c == '\0',
            Pad::NulOrSpace => c == '\0' || c == ' ',
        }
    }
}

/// `s` without the padding at its end.
pub open spec fn trimmed_end(s: Seq<char>, pad: Pad) -> Seq<char>
    decreases s.len(),
{
    if s.len() > 0 && pad.pads(s.last()) {
        trimmed_end(s.drop_last(), pad)
    } else {
        s
    }
}

/// `s` without the padding at its start.
pub open spec fn trimmed_start(s: Seq<char>, pad: Pad) -> Seq<char>
    decreases s.len(),
{
    if s.len() > 0 && pad.pads(s[0]) {
        trimmed_start(s.skip(1), pad)
    } else {
        s
    }
}

/// `s` without the white space around it.
pub open spec fn trimmed(s: Seq<char>) -> Seq<char> {
    trimmed_start(trimmed_end(s, Pad::White), Pad::White)
}

pub fn trim_end(s: &str, pad: Pad) -> (r: &str)
    ensures
        r@ == trimmed_end(s@, pad),
{
    let x: Vec<char> = chars_of(s);
    let mut n: usize = x.len();
    assert(s@.take(n as int) =~= s@);
    while n > 0 && pad.is_padding(x[n - 1])
        invariant
            n <= x@.len(),
            x@ == s@,
            trimmed_end(s@, pad) == trimmed_end(s@.take(n as int), pad),
        decreases n,
    {
        assert(s@.take(n as int).drop_last() =~= s@.take(n - 1));
        n = n - 1;
    }
    assert(n > 0 ==> s@.take(n as int).last() == s@[n - 1]);
    assert(s@.subrange(0, n as int) =~= s@.take(n as int));
    s.substring_char(0, n)
}

pub fn trim_start(s: &str, pad: Pad) -> (r: &str)
    ensures
        r@ == trimmed_start(s@, pad),
{
    let x: Vec<char> = chars_of(s);
    let mut n: usize = 0;
    assert(s@.skip(0) =~= s@);
    while n < x.len() && pad.is_padding(x[n])
        invariant
            n <= x@.len(),
            x@ == s@,
            trimmed_start(s@, pad) == trimmed_start(s@.skip(n as int), pad),
        decreases x@.len() - n,
    {
        assert(s@.skip(n as int).skip(1) =~= s@.skip(n + 1));
        n = n + 1;
    }
    assert(s@.subrange(n as int, x@.len() as int) =~= s@.skip(n as int));
    s.substring_char(n, x.len())
}

pub fn trim(s: &str) -> (r: &str)
    ensures
        r@ == trimmed(s@),
{
    trim_start(trim_end(s, Pad::White), Pad::White)
}

/// The text that `b` encodes, the empty one where `b` is not UTF-8.
pub open spec fn text_or_empty(b: Seq<u8>) -> Seq<char> {
    if valid_utf8(b) {
        decode_utf8(b)
    } else {
        Seq::empty()
    }
}

pub fn utf8_or_empty(b: &[u8]) -> (r: &str)
    ensures
        r@ == text_or_empty(b@),
{
    match from_utf8(b) {
        Some(s) => s,
        None => {
            let e: &str = "";
            proof {
                reveal_strlit("");
            }
            assert(e@ =~= Seq::<char>::empty());
            e
        },
    }
}

// ── Building ─────────────────────────────────────────────────────────────────

/// The decimal digit `d`.
pub open spec fn digit(d: int) -> char {
    (48 + d) as char
}

/// `n` in decimal, without leading zeros.
pub open spec fn decimal(n: nat) -> Seq<char>
    decreases n,
{
    if n < 10 {
        seq![digit(n as int)]
    } else {
        decimal(n / 10).push(digit((n % 10) as int))
    }
}

pub fn push_decimal(out: &mut String, n: u64)
    ensures
        final(out)@ == old(out)@ + decimal(n as nat),
    decreases n,
{
    if n >= 10 {
        push_decimal(out, n / 10);
    }
    let d: u8 = (n % 10) as u8;
    out.push((48 + d) as char);
    assert(out@ =~= old(out)@ + decimal(n as nat));
}

/// The views of a list of strings.
pub open spec fn texts(v: Seq<String>) -> Seq<Seq<char>> {
    v.map_values(|s: String| s@)
}

/// A list with the same texts.
pub fn copy_texts(v: &[String]) -> (r: Vec<String>)
    ensures
        texts(r@) == texts(v@),
{
    let mut out: Vec<String> = Vec::new();
    let mut i: usize = 0;
    while i < v.len()
        invariant
            i <= v@.len(),
            texts(out@) =~= texts(v@).take(i as int),
        decreases v@.len() - i,
    {
        let ghost before = texts(out@);
        out.push(v[i].clone());
        assert(texts(out@) =~= before.push(v@[i as int]@));
        i = i + 1;
    }
    assert(texts(v@).take(i as int) =~= texts(v@));
    out
}

/// The parts, one behind the other, with `sep` between them.
pub open spec fn joined(parts: Seq<Seq<char>>, sep: Seq<char>) -> Seq<char>
    decreases parts.len(),
{
    if parts.len() == 0 {
        Seq::empty()
    } else if parts.len() == 1 {
        parts[0]
    } else {
        joined(parts.drop_last(), sep) + sep + parts.last()
    }
}

pub fn join(parts: &Vec<String>, sep: &str) -> (r: String)
    ensures
        r@ == joined(texts(parts@), sep@),
{
    let mut out: String = String::new();
    let ghost all = texts(parts@);
    let mut i: usize = 0;
    while i < parts.len()
        invariant
            i <= parts@.len(),
            all == texts(parts@),
            out@ == joined(all.take(i as int), sep@),
        decreases parts@.len() - i,
    {
        if i > 0 {
            out.append(sep);
        }
        out.append(parts[i].as_str());
        proof {
            let upto = all.take(i + 1);
            assert(upto.drop_last() =~= all.take(i as int));
            assert(upto.last() == parts@[i as int]@);
            if i == 0 {
                assert(out@ =~= upto[0]);
            }
        }
        i = i + 1;
    }
    assert(all.take(i as int) =~= all);
    out
}

// ── Searching ────────────────────────────────────────────────────────────────

/// Whether `pat` stands at position `i` of `s`.
pub open spec fn stands_at(s: Seq<char>, pat: Seq<char>, i: int) -> bool {
    i + pat.len() <= s.len() && s.subrange(i, i + pat.len()) == pat
}

/// The first position from `i` on at which `pat` stands in `s`.
pub open spec fn find_from(s: Seq<char>, pat: Seq<char>, i: int) -> Option<int>
    decreases s.len() - i + 1,
{
    if i + pat.len() > s.len() {
        None
    } else if stands_at(s, pat, i) {
        Some(i)
    } else {
        find_from(s, pat, i + 1)
    }
}

/// The parts of `s` between the places where `pat` stands.
pub open spec fn parts(s: Seq<char>, pat: Seq<char>) -> Seq<Seq<char>>
    decreases s.len(),
    when pat.len() > 0
    via parts_decreases
{
    match find_from(s, pat, 0) {
        None => seq![s],
        Some(i) => seq![s.take(i)] + parts(s.skip(i + pat.len()), pat),
    }
}

#[via_fn]
proof fn parts_decreases(s: Seq<char>, pat: Seq<char>) {
    lemma_find_bounds(s, pat, 0);
}

/// Where a pattern is found, it stands, and it stands nowhere before.
pub proof fn lemma_find_bounds(s: Seq<char>, pat: Seq<char>, i: int)
    requires
        0 <= i,
    ensures
        match find_from(s, pat, i) {
            Some(k) => {
                &&& i <= k
                &&& k + pat.len() <= s.len()
                &&& stands_at(s, pat, k)
                &&& forall|j: int| i <= j < k ==> !#[trigger] stands_at(s, pat, j)
            },
            None => forall|j: int| i <= j ==> !#[trigger] stands_at(s, pat, j),
        },
    decreases s.len() - i + 1,
{
    if i + pat.len() <= s.len() && !stands_at(s, pat, i) {
        lemma_find_bounds(s, pat, i + 1);
    }
}

fn matches_at(s: &Vec<char>, pat: &Vec<char>, i: usize) -> (r: bool)
    requires
        i + pat@.len() <= s@.len(),
    ensures
        r == stands_at(s@, pat@, i as int),
{
    let mut k: usize = 0;
    while k < pat.len()
        invariant
            k <= pat@.len(),
            i + pat@.len() <= s@.len(),
            forall|j: int| 0 <= j < k ==> s@[i + j] == pat@[j],
        decreases pat@.len() - k,
    {
        assert(s.len() <= usize::MAX);
        if s[i + k] != pat[k] {
            assert(s@.subrange(i as int, i + pat@.len())[k as int] != pat@[k as int]);
            return false;
        }
        k = k + 1;
    }
    assert(s@.subrange(i as int, i + pat@.len()) =~= pat@);
    true
}

/// The first position from `from` on at which `pat` stands.
fn find_chars(s: &Vec<char>, pat: &Vec<char>, from: usize) -> (r: Option<usize>)
    requires
        from <= s@.len(),
        pat@.len() > 0,
    ensures
        match r {
            Some(i) => find_from(s@, pat@, from as int) == Some(i as int) && i + pat@.len()
                <= s@.len(),
            None => find_from(s@, pat@, from as int) is None,
        },
{
    let mut i: usize = from;
    while i < s.len() && s.len() - i >= pat.len()
        invariant
            from <= i <= s@.len(),
            find_from(s@, pat@, from as int) == find_from(s@, pat@, i as int),
        decreases s@.len() - i,
    {
        if matches_at(s, pat, i) {
            return Some(i);
        }
        i = i + 1;
    }
    None
}

/// Splits a text at every place where `pat` stands.
pub fn split(s: &str, pat: &str) -> (r: Vec<String>)
    requires
        pat@.len() > 0,
    ensures
        texts(r@) == parts(s@, pat@),
{
    let x: Vec<char> = chars_of(s);
    let p: Vec<char> = chars_of(pat);
    let mut out: Vec<String> = Vec::new();
    let mut start: usize = 0;
    proof {
        assert(s@.skip(0) =~= s@);
        assert(texts(out@) + parts(s@, pat@) =~= parts(s@, pat@));
    }
    loop
        invariant
            x@ == s@,
            p@ == pat@,
            p@.len() > 0,
            start <= x@.len(),
            parts(s@, pat@) == texts(out@) + parts(s@.skip(start as int), pat@),
        decreases x@.len() - start,
    {
        let ghost rest = s@.skip(start as int);
        proof {
            lemma_find_shift(s@, pat@, start as int, 0);
        }
        match find_chars(&x, &p, start) {
            None => {
                let piece: &str = s.substring_char(start, x.len());
                let ghost before = texts(out@);
                out.push(piece.to_owned());
                proof {
                    assert(piece@ =~= rest);
                    assert(texts(out@) =~= before.push(piece@));
                    assert(before + seq![rest] =~= before.push(piece@));
                }
                return out;
            },
            Some(i) => {
                proof {
                    lemma_find_bounds(s@, pat@, start as int);
                }
                let piece: &str = s.substring_char(start, i);
                let ghost before = texts(out@);
                out.push(piece.to_owned());
                proof {
                    assert(piece@ =~= rest.take(i - start));
                    assert(rest.skip(i - start + pat@.len()) =~= s@.skip(i + pat@.len()));
                    let tail = parts(s@.skip(i + pat@.len()), pat@);
                    assert(texts(out@) =~= before.push(piece@));
                    assert(before + (seq![piece@] + tail) =~= before.push(piece@) + tail);
                }
                assert(x.len() <= usize::MAX);
                start = i + p.len();
            },
        }
    }
}

/// Searching behind a position is searching in what is behind it.
proof fn lemma_find_shift(s: Seq<char>, pat: Seq<char>, start: int, i: int)
    requires
        0 <= start <= s.len(),
        0 <= i,
    ensures
        find_from(s, pat, start + i) == (match find_from(s.skip(start), pat, i) {
            Some(k) => Some(start + k),
            None => None,
        }),
    decreases s.len() - start - i + 1,
{
    let rest = s.skip(start);
    if i + pat.len() <= rest.len() {
        assert(s.subrange(start + i, start + i + pat.len()) =~= rest.subrange(i, i + pat.len()));
        if !stands_at(rest, pat, i) {
            lemma_find_shift(s, pat, start, i + 1);
        }
    }
}

/// The first place where `pat` stands, in characters.
pub fn find(s: &str, pat: &str) -> (r: Option<usize>)
    requires
        pat@.len() > 0,
    ensures
        match r {
            Some(i) => find_from(s@, pat@, 0) == Some(i as int) && i + pat@.len() <= s@.len(),
            None => find_from(s@, pat@, 0) is None,
        },
{
    find_chars(&chars_of(s), &chars_of(pat), 0)
}

/// Whether `s` starts with `pat`.
pub fn starts_with(s: &str, pat: &str) -> (r: bool)
    ensures
        r == stands_at(s@, pat@, 0),
{
    let x: Vec<char> = chars_of(s);
    let p: Vec<char> = chars_of(pat);
    x.len() >= p.len() && matches_at(&x, &p, 0)
}

/// `s` without the characters `c`.
pub open spec fn without_char(s: Seq<char>, c: char) -> Seq<char>
    decreases s.len(),
{
    if s.len() == 0 {
        s
    } else if s.last() == c {
        without_char(s.drop_last(), c)
    } else {
        without_char(s.drop_last(), c).push(s.last())
    }
}

pub fn remove_char(s: &str, c: char) -> (r: String)
    ensures
        r@ == without_char(s@, c),
{
    let x: Vec<char> = chars_of(s);
    let mut out: String = String::new();
    let mut i: usize = 0;
    while i < x.len()
        invariant
            i <= x@.len(),
            out@ == without_char(x@.take(i as int), c),
        decreases x@.len() - i,
    {
        assert(x@.take(i + 1).drop_last() =~= x@.take(i as int));
        if x[i] != c {
            out.push(x[i]);
        }
        i = i + 1;
    }
    assert(x@.take(i as int) =~= x@);
    out
}

/// A name between double quotes.
pub open spec fn quoted(s: Seq<char>) -> Seq<char> {
    "\""@ + s + "\""@
}

pub fn quote(s: &str) -> (r: String)
    ensures
        r@ == quoted(s@),
{
    let mut out: String = String::from_str("\"");
    out.append(s);
    out.append("\"");
    out
}

/// `s` filled up with blanks to at least `width` characters.
pub open spec fn padded(s: Seq<char>, width: int) -> Seq<char>
    decreases width - s.len(),
{
    if s.len() < width {
        padded(s.push(' '), width)
    } else {
        s
    }
}

pub fn pad(s: String, width: usize) -> (r: String)
    ensures
        r@ == padded(s@, width as int),
{
    let mut n: usize = s.as_str().unicode_len();
    let mut out: String = s;
    while n < width
        invariant
            out@.len() == n,
            padded(s@, width as int) == padded(out@, width as int),
        decreases width - n,
    {
        out.push(' ');
        n = n + 1;
    }
    out
}

} // verus!
