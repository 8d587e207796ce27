//! What trimming, joining, splitting and writing numbers do to a text.
use crate::text::{
    ascii_fold, decimal, digit, eq_ascii_fold, find_from, joined, lemma_find_bounds, padded, parts,
    quoted, stands_at, trimmed, trimmed_end, trimmed_start, without_char, Pad,
};
use vstd::prelude::*;

verus! {

// ── Trimming ─────────────────────────────────────────────────────────────────

/// Padding at the end is taken off, and nothing else.
pub proof fn law_trimmed_end(kept: Seq<char>, pad: Pad, tail: Seq<char>)
    requires
        kept.len() > 0 ==> !pad.pads(kept.last()),
        forall|i: int| 0 <= i < tail.len() ==> pad.pads(#[trigger] tail[i]),
    ensures
        trimmed_end(kept + tail, pad) == kept,
    decreases tail.len(),
{
    if tail.len() == 0 {
        assert(kept + tail =~= kept);
    } else {
        let all = kept + tail;
        assert(all.last() == tail[tail.len() - 1]);
        assert(all.drop_last() =~= kept + tail.drop_last());
        law_trimmed_end(kept, pad, tail.drop_last());
    }
}

proof fn lemma_trimmed_start(head: Seq<char>, pad: Pad, kept: Seq<char>)
    requires
        kept.len() > 0 ==> !pad.pads(kept[0]),
        forall|i: int| 0 <= i < head.len() ==> pad.pads(#[trigger] head[i]),
    ensures
        trimmed_start(head + kept, pad) == kept,
    decreases head.len(),
{
    if head.len() == 0 {
        assert(head + kept =~= kept);
    } else {
        let all = head + kept;
        assert(all[0] == head[0]);
        assert(all.skip(1) =~= head.skip(1) + kept);
        lemma_trimmed_start(head.skip(1), pad, kept);
    }
}

/// White space on both sides is taken off, and nothing else.
pub proof fn law_trimmed(head: Seq<char>, kept: Seq<char>, tail: Seq<char>)
    requires
        kept.len() > 0,
        !Pad::White.pads(kept[0]),
        !Pad::White.pads(kept.last()),
        forall|i: int| 0 <= i < head.len() ==> Pad::White.pads(#[trigger] head[i]),
        forall|i: int| 0 <= i < tail.len() ==> Pad::White.pads(#[trigger] tail[i]),
    ensures
        trimmed(head + kept + tail) == kept,
{
    assert((head + kept).last() == kept.last());
    law_trimmed_end(head + kept, Pad::White, tail);
    lemma_trimmed_start(head, Pad::White, kept);
}

/// What counts as padding: the zero character, or that and the blank. The blank, the
/// tabulator and the ends of lines are white space; letters, digits and what is printed from
/// `!` to `~` are not.
pub proof fn law_padding(c: char)
    ensures
        Pad::Nul.pads(c) <==> c as int == 0,
        Pad::NulOrSpace.pads(c) <==> c as int == 0 || c as int == 32,
        c as int == 32 || 9 <= c as int <= 13 ==> Pad::White.pads(c),
        33 <= c as int <= 126 || c as int <= 8 || 14 <= c as int <= 31 ==> !Pad::White.pads(c),
{
}

// ── Comparing ────────────────────────────────────────────────────────────────

/// Two texts are the same but for large and small letters exactly where each character is the
/// same, or both are the same letter of the alphabet from A to Z in different size.
pub proof fn law_letters_compare_without_size(a: Seq<char>, b: Seq<char>)
    ensures
        eq_ascii_fold(a, b) <==> a.len() == b.len() && forall|i: int|
            0 <= i < a.len() ==> same_letter(#[trigger] a[i], b[i]),
        eq_ascii_fold(a, b) == eq_ascii_fold(b, a),
        eq_ascii_fold(a, a),
{
    if eq_ascii_fold(a, b) {
        assert forall|i: int| 0 <= i < a.len() implies same_letter(#[trigger] a[i], b[i]) by {
            assert(ascii_fold(a[i]) == ascii_fold(b[i]));
        }
    }
    if a.len() == b.len() && forall|i: int|
        0 <= i < a.len() ==> same_letter(#[trigger] a[i], b[i]) {
        assert forall|i: int| 0 <= i < a.len() implies ascii_fold(a[i]) == ascii_fold(b[i]) by {
            assert(same_letter(a[i], b[i]));
        }
    }
}

/// Whether two characters are the same, or the same letter in two sizes.
pub open spec fn same_letter(c: char, d: char) -> bool {
    ||| c == d
    ||| 65 <= c as int <= 90 && d as int == c as int + 32
    ||| 65 <= d as int <= 90 && c as int == d as int + 32
}

// ── Joining and splitting ────────────────────────────────────────────────────

/// A list that grows by one grows by the separator and that one.
pub proof fn law_joined_grows(pieces: Seq<Seq<char>>, last: Seq<char>, sep: Seq<char>)
    ensures
        joined(Seq::empty(), sep).len() == 0,
        joined(seq![last], sep) == last,
        pieces.len() > 0 ==> joined(pieces.push(last), sep) == joined(pieces, sep) + sep + last,
{
    assert(pieces.push(last).drop_last() =~= pieces);
}

proof fn lemma_joined_front(pieces: Seq<Seq<char>>, sep: Seq<char>)
    requires
        pieces.len() > 1,
    ensures
        joined(pieces, sep) == pieces[0] + sep + joined(pieces.skip(1), sep),
    decreases pieces.len(),
{
    let front = pieces.drop_last();
    if pieces.len() == 2 {
        assert(pieces.skip(1) =~= seq![pieces[1]]);
        assert(front =~= seq![pieces[0]]);
        assert(joined(front, sep) == pieces[0]);
    } else {
        lemma_joined_front(front, sep);
        assert(front.skip(1) =~= pieces.skip(1).drop_last());
        assert(joined(pieces, sep) =~= pieces[0] + sep + joined(pieces.skip(1), sep));
    }
}

/// Whether a comma with a blank behind it stands at a place.
pub open spec fn comma_blank_at(s: Seq<char>, i: int) -> bool {
    0 <= i < s.len() - 1 && s[i] == ',' && s[i + 1] == ' '
}

/// Whether a comma with a blank behind it stands somewhere in a text.
pub open spec fn holds_comma_blank(s: Seq<char>) -> bool {
    exists|i: int| #[trigger] comma_blank_at(s, i)
}

proof fn lemma_stands(s: Seq<char>, sep: Seq<char>, k: int)
    requires
        0 <= k,
        sep.len() == 2,
    ensures
        stands_at(s, sep, k) <==> k + 2 <= s.len() && s[k] == sep[0] && s[k + 1] == sep[1],
{
    if k + 2 <= s.len() {
        let w = s.subrange(k, k + 2);
        assert(w[0] == s[k] && w[1] == s[k + 1]);
        if s[k] == sep[0] && s[k + 1] == sep[1] {
            assert(w =~= sep);
        }
    }
}

proof fn lemma_no_comma(p: Seq<char>, sep: Seq<char>)
    requires
        sep.len() == 2,
        sep[0] == ',',
        sep[1] == ' ',
        !holds_comma_blank(p),
    ensures
        find_from(p, sep, 0) is None,
{
    lemma_find_bounds(p, sep, 0);
    if find_from(p, sep, 0) is Some {
        let k = find_from(p, sep, 0)->0;
        lemma_stands(p, sep, k);
        assert(comma_blank_at(p, k));
    }
}

proof fn lemma_none_before(p: Seq<char>, sep: Seq<char>, s: Seq<char>, k: int)
    requires
        sep.len() == 2,
        sep[0] == ',',
        sep[1] == ' ',
        !holds_comma_blank(p),
        p.len() + 2 <= s.len(),
        s.take(p.len() as int) == p,
        s[p.len() as int] == ',',
        0 <= k < p.len(),
    ensures
        !stands_at(s, sep, k),
{
    let w = s.take(p.len() as int);
    lemma_stands(s, sep, k);
    assert(w[k] == s[k]);
    if k + 1 < p.len() {
        assert(w[k + 1] == s[k + 1]);
        assert(!comma_blank_at(p, k));
    }
}

proof fn lemma_first_comma(p: Seq<char>, sep: Seq<char>, s: Seq<char>)
    requires
        sep.len() == 2,
        sep[0] == ',',
        sep[1] == ' ',
        !holds_comma_blank(p),
        p.len() + 2 <= s.len(),
        s.take(p.len() as int) == p,
        s[p.len() as int] == ',',
        s[p.len() as int + 1] == ' ',
    ensures
        find_from(s, sep, 0) == Some(p.len() as int),
{
    let n = p.len() as int;
    lemma_stands(s, sep, n);
    lemma_find_bounds(s, sep, 0);
    let found = find_from(s, sep, 0);
    if found is Some && found->0 < n {
        lemma_none_before(p, sep, s, found->0);
    }
}

/// What is joined by a comma and a blank is split there into the same pieces, if none of them
/// holds a comma and a blank itself.
pub proof fn law_list_is_split(pieces: Seq<Seq<char>>)
    requires
        pieces.len() > 0,
        forall|i: int| 0 <= i < pieces.len() ==> !holds_comma_blank(#[trigger] pieces[i]),
    ensures
        parts(joined(pieces, seq![',', ' ']), seq![',', ' ']) == pieces,
    decreases pieces.len(),
{
    let sep = seq![',', ' '];
    let s = joined(pieces, sep);
    let p = pieces[0];
    let rest = pieces.skip(1);
    assert(!holds_comma_blank(pieces[0]));
    if pieces.len() == 1 {
        lemma_no_comma(p, sep);
        assert(s == p);
        assert(parts(s, sep) == seq![s]);
        assert(pieces =~= seq![s]);
    } else {
        let tail = joined(rest, sep);
        lemma_joined_front(pieces, sep);
        assert(s.take(p.len() as int) =~= p);
        lemma_first_comma(p, sep, s);
        assert forall|i: int| 0 <= i < rest.len() implies !holds_comma_blank(#[trigger] rest[i]) by {
            assert(rest[i] == pieces[i + 1]);
        }
        law_list_is_split(rest);
        let n = p.len() as int;
        assert(s.take(n) =~= p);
        assert(s.skip(n + 2) =~= tail);
        assert(parts(s, sep) == seq![s.take(n)] + parts(s.skip(n + sep.len()), sep));
        assert(seq![p] + rest =~= pieces);
    }
}

/// A name in quotes is a quotation mark, the name and a quotation mark.
pub proof fn law_quoted(s: Seq<char>)
    ensures
        quoted(s) == seq!['"'] + s + seq!['"'],
{
    reveal_strlit("\"");
    assert("\""@ =~= seq!['"']);
}

/// Filling up to a width adds blanks behind the text, and only as many as are missing.
pub proof fn law_padded(s: Seq<char>, width: int)
    ensures
        s.len() >= width ==> padded(s, width) == s,
        s.len() < width ==> padded(s, width).len() == width,
        padded(s, width).len() >= s.len(),
        padded(s, width).take(s.len() as int) == s,
        forall|i: int| s.len() <= i < padded(s, width).len() ==> padded(s, width)[i] == ' ',
    decreases width - s.len(),
{
    let r = padded(s, width);
    if s.len() < width {
        law_padded(s.push(' '), width);
        assert(r.take(s.len() as int) =~= s) by {
            assert(r.take(s.len() as int + 1) == s.push(' '));
            assert forall|i: int| 0 <= i < s.len() implies r[i] == s[i] by {
                assert(r.take(s.len() as int + 1)[i] == s.push(' ')[i]);
            }
        }
        assert(r[s.len() as int] == ' ') by {
            assert(r.take(s.len() as int + 1)[s.len() as int] == ' ');
        }
    } else {
        assert(s.take(s.len() as int) =~= s);
    }
}

/// A character that is taken out stands nowhere any more, and the others are as they were.
pub proof fn law_without_char(s: Seq<char>, c: char)
    ensures
        !without_char(s, c).contains(c),
        !s.contains(c) ==> without_char(s, c) == s,
        without_char(s, c) == s.filter(|d: char| d != c),
    decreases s.len(),
{
    reveal(Seq::filter);
    if s.len() > 0 {
        let t = s.drop_last();
        law_without_char(t, c);
        let w = without_char(t, c);
        if s.last() != c {
            assert forall|i: int| 0 <= i < w.push(s.last()).len() implies w.push(s.last())[i]
                != c by {
                if i < w.len() {
                    assert(w.contains(w[i]));
                }
            }
        }
        if !s.contains(c) {
            assert(s[s.len() - 1] == s.last());
            assert forall|i: int| 0 <= i < t.len() implies t[i] != c by {
                assert(s[i] == t[i]);
            }
            assert(t.push(s.last()) =~= s);
        }
    }
}

// ── Numbers ──────────────────────────────────────────────────────────────────

/// The number that decimal digits make.
pub open spec fn number_of(s: Seq<char>) -> int
    decreases s.len(),
{
    if s.len() == 0 {
        0
    } else {
        10 * number_of(s.drop_last()) + (s.last() as int - '0' as int)
    }
}

/// A number is written in digits that make it, without a zero in front.
pub proof fn law_decimal(n: nat)
    ensures
        number_of(decimal(n)) == n,
        forall|i: int| 0 <= i < decimal(n).len() ==> '0' <= #[trigger] decimal(n)[i] <= '9',
        decimal(n).len() > 0,
        n > 0 ==> decimal(n)[0] != '0',
    decreases n,
{
    let d = digit((n % 10) as int);
    assert(d as int == 48 + n % 10);
    if n < 10 {
        let one = seq![digit(n as int)];
        assert(one.drop_last() =~= Seq::empty());
        assert(number_of(one.drop_last()) == 0);
    } else {
        law_decimal(n / 10);
        let front = decimal(n / 10);
        assert(front.push(d).drop_last() =~= front);
        assert forall|i: int| 0 <= i < front.push(d).len() implies '0' <= #[trigger] front.push(
            d,
        )[i] <= '9' by {
            if i < front.len() {
                assert(front.push(d)[i] == front[i]);
            }
        }
    }
}

} // verus!
