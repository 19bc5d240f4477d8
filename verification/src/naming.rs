//! Identifier and file-name derivation: slugs from titles, per-date
//! sequence numbers from the live set of identifiers, and the note file
//! location scheme.

use vstd::prelude::*;

use crate::text::{push_char, seg_has_no_nl, str_eq, suffix_from};

verus! {

pub open spec fn is_alnum(c: char) -> bool {
    (48 <= c as int && c as int <= 57) || (65 <= c as int && c as int <= 90) || (97 <= c as int
        && c as int <= 122)
}

/// ASCII lowercasing; any other character is left alone.
pub open spec fn lower_char(c: char) -> char {
    if c == 'A' {
        'a'
    } else if c == 'B' {
        'b'
    } else if c == 'C' {
        'c'
    } else if c == 'D' {
        'd'
    } else if c == 'E' {
        'e'
    } else if c == 'F' {
        'f'
    } else if c == 'G' {
        'g'
    } else if c == 'H' {
        'h'
    } else if c == 'I' {
        'i'
    } else if c == 'J' {
        'j'
    } else if c == 'K' {
        'k'
    } else if c == 'L' {
        'l'
    } else if c == 'M' {
        'm'
    } else if c == 'N' {
        'n'
    } else if c == 'O' {
        'o'
    } else if c == 'P' {
        'p'
    } else if c == 'Q' {
        'q'
    } else if c == 'R' {
        'r'
    } else if c == 'S' {
        's'
    } else if c == 'T' {
        't'
    } else if c == 'U' {
        'u'
    } else if c == 'V' {
        'v'
    } else if c == 'W' {
        'w'
    } else if c == 'X' {
        'x'
    } else if c == 'Y' {
        'y'
    } else if c == 'Z' {
        'z'
    } else {
        c
    }
}

pub fn is_alnum_exec(c: char) -> (r: bool)
    ensures
        r == is_alnum(c),
{
    let u = c as u32;
    (48 <= u && u <= 57) || (65 <= u && u <= 90) || (97 <= u && u <= 122)
}

pub fn lower_char_exec(c: char) -> (r: char)
    ensures
        r == lower_char(c),
{
    if c == 'A' {
        'a'
    } else if c == 'B' {
        'b'
    } else if c == 'C' {
        'c'
    } else if c == 'D' {
        'd'
    } else if c == 'E' {
        'e'
    } else if c == 'F' {
        'f'
    } else if c == 'G' {
        'g'
    } else if c == 'H' {
        'h'
    } else if c == 'I' {
        'i'
    } else if c == 'J' {
        'j'
    } else if c == 'K' {
        'k'
    } else if c == 'L' {
        'l'
    } else if c == 'M' {
        'm'
    } else if c == 'N' {
        'n'
    } else if c == 'O' {
        'o'
    } else if c == 'P' {
        'p'
    } else if c == 'Q' {
        'q'
    } else if c == 'R' {
        'r'
    } else if c == 'S' {
        's'
    } else if c == 'T' {
        't'
    } else if c == 'U' {
        'u'
    } else if c == 'V' {
        'v'
    } else if c == 'W' {
        'w'
    } else if c == 'X' {
        'x'
    } else if c == 'Y' {
        'y'
    } else if c == 'Z' {
        'z'
    } else {
        c
    }
}

/// The words of a title: maximal alphanumeric runs, lowercased, read
/// left to right with `cur` as the word in progress.
pub open spec fn scan_words(s: Seq<char>, cur: Seq<char>) -> Seq<Seq<char>>
    decreases s.len(),
{
    if s.len() == 0 {
        if cur.len() == 0 {
            Seq::empty()
        } else {
            seq![cur]
        }
    } else if is_alnum(s[0]) {
        scan_words(s.skip(1), cur.push(lower_char(s[0])))
    } else if cur.len() == 0 {
        scan_words(s.skip(1), cur)
    } else {
        seq![cur] + scan_words(s.skip(1), Seq::empty())
    }
}

pub open spec fn words(s: Seq<char>) -> Seq<Seq<char>> {
    scan_words(s, Seq::empty())
}

/// Words joined by single separator dashes.
pub open spec fn join_dash(ws: Seq<Seq<char>>) -> Seq<char>
    decreases ws.len(),
{
    if ws.len() <= 1 {
        if ws.len() == 0 {
            Seq::empty()
        } else {
            ws[0]
        }
    } else {
        join_dash(ws.drop_last()) + seq!['-'] + ws.last()
    }
}

pub open spec fn slug_fallback() -> Seq<char> {
    seq!['n', 'o', 't', 'e']
}

/// The slug of a title: its lowercased words joined by dashes, or the
/// fixed fallback token when the title has no alphanumeric character.
pub open spec fn slug_of(s: Seq<char>) -> Seq<char> {
    if words(s).len() == 0 {
        slug_fallback()
    } else {
        join_dash(words(s))
    }
}

/// The slug depends only on the word decomposition: titles that differ
/// only in the separator characters between (and around) their words
/// slugify identically.
pub proof fn lemma_slug_depends_on_words(a: Seq<char>, b: Seq<char>)
    requires
        words(a) == words(b),
    ensures
        slug_of(a) == slug_of(b),
{
}

/// Derives the file-name slug from a title.
pub fn slugify(title: &str) -> (r: String)
    ensures
        r@ == slug_of(title@),
{
    let len = title.unicode_len();
    let mut done: Vec<String> = Vec::new();
    let mut cur = String::new();
    let mut i: usize = 0;
    proof {
        assert(title@.skip(0) =~= title@);
        assert(done.deep_view() =~= Seq::<Seq<char>>::empty());
    }
    while i < len
        invariant
            i <= len,
            len == title@.len(),
            words(title@) =~~= done.deep_view() + scan_words(title@.skip(i as int), cur@),
        decreases len - i,
    {
        let c = title.get_char(i);
        proof {
            assert(title@.skip(i as int)[0] == c);
            assert(title@.skip(i as int).skip(1) =~= title@.skip(i as int + 1));
        }
        if is_alnum_exec(c) {
            push_char(&mut cur, lower_char_exec(c));
        } else if cur.as_str().is_empty() {
            proof {
                assert(cur@.len() == 0);
            }
        } else {
            let ghost prev = done@;
            let ghost curv = cur@;
            done.push(cur);
            cur = String::new();
            proof {
                assert forall|j: int| 0 <= j < prev.len() implies #[trigger] done.deep_view()[j]
                    == prev[j]@ by {
                    assert(done@[j] == prev[j]);
                }
                assert(done.deep_view()[prev.len() as int] == curv);
                assert(words(title@) =~~= done.deep_view() + scan_words(
                    title@.skip(i as int + 1),
                    cur@,
                ));
            }
        }
        i += 1;
    }
    proof {
        assert(title@.skip(len as int) =~= Seq::<char>::empty());
    }
    if !cur.as_str().is_empty() {
        let ghost prev = done@;
        let ghost curv = cur@;
        done.push(cur);
        proof {
            assert forall|j: int| 0 <= j < prev.len() implies #[trigger] done.deep_view()[j]
                == prev[j]@ by {
                assert(done@[j] == prev[j]);
            }
            assert(done.deep_view()[prev.len() as int] == curv);
            assert(words(title@) =~~= done.deep_view());
        }
    } else {
        proof {
            assert(scan_words(Seq::<char>::empty(), cur@) =~~= Seq::<Seq<char>>::empty());
            assert(words(title@) =~~= done.deep_view());
        }
    }
    if done.len() == 0 {
        let r = fallback_str().to_owned();
        return r;
    }
    let mut out: String = done[0].clone();
    let mut k: usize = 1;
    proof {
        assert(done.deep_view().take(1).drop_last() =~= Seq::<Seq<char>>::empty());
        assert(done.deep_view().take(1)[0] == done[0]@);
        assert(out@ =~= join_dash(done.deep_view().take(1)));
    }
    while k < done.len()
        invariant
            1 <= k <= done.len(),
            out@ == join_dash(done.deep_view().take(k as int)),
        decreases done.len() - k,
    {
        push_char(&mut out, '-');
        let seg = &done[k];
        out.append(seg.as_str());
        proof {
            let dv = done.deep_view();
            assert(dv.take(k as int + 1).drop_last() =~= dv.take(k as int));
            assert(dv.take(k as int + 1).last() == dv[k as int]);
            assert(out@ =~= join_dash(dv.take(k as int)) + seq!['-'] + dv[k as int]);
        }
        k += 1;
    }
    proof {
        assert(done.deep_view().take(done.len() as int) =~= done.deep_view());
    }
    out
}

fn fallback_str() -> (r: &'static str)
    ensures
        r@ == slug_fallback(),
{
    proof {
        reveal_strlit("note");
        assert("note"@ =~= slug_fallback());
    }
    "note"
}

// ---------------------------------------------------------------------
// Decimal sequence numbers.
// ---------------------------------------------------------------------

pub open spec fn is_digit(c: char) -> bool {
    48 <= c as int && c as int <= 57
}

pub open spec fn digit_val(c: char) -> int {
    c as int - 48
}

pub open spec fn is_digits(s: Seq<char>) -> bool {
    s.len() > 0 && forall|i: int| 0 <= i < s.len() ==> is_digit(#[trigger] s[i])
}

/// The numeric value of a digit string, most significant digit first.
pub open spec fn dec_value(s: Seq<char>) -> int
    decreases s.len(),
{
    if s.len() == 0 {
        0
    } else {
        dec_value(s.drop_last()) * 10 + digit_val(s.last())
    }
}

/// The largest sequence number the engine accepts when reading an
/// identifier back.
pub open spec fn seq_limit() -> int {
    2147483647
}

/// What a digit suffix contributes: its value, when it is all digits and
/// within range.
pub open spec fn seq_num_of(s: Seq<char>) -> Option<int> {
    if is_digits(s) && dec_value(s) <= seq_limit() {
        Some(dec_value(s))
    } else {
        None
    }
}

pub open spec fn digit_char(d: int) -> char {
    if d == 0 {
        '0'
    } else if d == 1 {
        '1'
    } else if d == 2 {
        '2'
    } else if d == 3 {
        '3'
    } else if d == 4 {
        '4'
    } else if d == 5 {
        '5'
    } else if d == 6 {
        '6'
    } else if d == 7 {
        '7'
    } else if d == 8 {
        '8'
    } else {
        '9'
    }
}

/// The decimal digits of `n`.
pub open spec fn dec_str(n: int) -> Seq<char>
    recommends
        n >= 0,
    decreases n,
{
    if n < 10 {
        seq![digit_char(n)]
    } else {
        dec_str(n / 10).push(digit_char(n % 10))
    }
}

/// The decimal digits of `n`, zero-padded to at least three places.
pub open spec fn padded3(n: int) -> Seq<char> {
    if n < 10 {
        seq!['0', '0'] + dec_str(n)
    } else if n < 100 {
        seq!['0'] + dec_str(n)
    } else {
        dec_str(n)
    }
}

pub proof fn lemma_dec_str(n: int)
    requires
        n >= 0,
    ensures
        dec_str(n).len() >= 1,
        forall|i: int| 0 <= i < dec_str(n).len() ==> is_digit(#[trigger] dec_str(n)[i]),
        dec_value(dec_str(n)) == n,
    decreases n,
{
    if n < 10 {
        assert(seq![digit_char(n)].drop_last() =~= Seq::<char>::empty());
        assert(dec_value(Seq::<char>::empty()) == 0);
    } else {
        lemma_dec_str(n / 10);
        assert(dec_str(n).drop_last() =~= dec_str(n / 10));
    }
}

pub proof fn lemma_dec_value_zero_prepend(s: Seq<char>)
    ensures
        dec_value(seq!['0'] + s) == dec_value(s),
    decreases s.len(),
{
    if s.len() == 0 {
        assert((seq!['0'] + s) =~= seq!['0']);
        assert(seq!['0'].drop_last() =~= Seq::<char>::empty());
        assert(dec_value(Seq::<char>::empty()) == 0);
    } else {
        lemma_dec_value_zero_prepend(s.drop_last());
        assert((seq!['0'] + s).drop_last() =~= seq!['0'] + s.drop_last());
        assert((seq!['0'] + s).last() == s.last());
    }
}

pub proof fn lemma_padded3(n: int)
    requires
        n >= 0,
    ensures
        is_digits(padded3(n)),
        dec_value(padded3(n)) == n,
    decreases n,
{
    lemma_dec_str(n);
    if n < 10 {
        lemma_dec_value_zero_prepend(dec_str(n));
        lemma_dec_value_zero_prepend(seq!['0'] + dec_str(n));
        assert(padded3(n) =~= seq!['0'] + (seq!['0'] + dec_str(n)));
    } else if n < 100 {
        lemma_dec_value_zero_prepend(dec_str(n));
    }
}

proof fn lemma_dec_nonneg(s: Seq<char>)
    requires
        forall|i: int| 0 <= i < s.len() ==> is_digit(#[trigger] s[i]),
    ensures
        dec_value(s) >= 0,
    decreases s.len(),
{
    if s.len() > 0 {
        lemma_dec_nonneg(s.drop_last());
    }
}

proof fn lemma_dec_mono(s: Seq<char>, j: int)
    requires
        0 <= j <= s.len(),
        forall|i: int| 0 <= i < s.len() ==> is_digit(#[trigger] s[i]),
    ensures
        dec_value(s.take(j)) <= dec_value(s),
    decreases s.len() - j,
{
    if j < s.len() {
        lemma_dec_mono(s, j + 1);
        assert(s.take(j + 1).drop_last() =~= s.take(j));
        assert(s.take(j + 1).last() == s[j]);
        assert(forall|i: int| 0 <= i < s.take(j).len() ==> is_digit(#[trigger] s.take(j)[i]));
        lemma_dec_nonneg(s.take(j));
    } else {
        assert(s.take(j) =~= s);
    }
}

pub fn digit_char_exec(d: u32) -> (r: char)
    requires
        d < 10,
    ensures
        r == digit_char(d as int),
{
    if d == 0 {
        '0'
    } else if d == 1 {
        '1'
    } else if d == 2 {
        '2'
    } else if d == 3 {
        '3'
    } else if d == 4 {
        '4'
    } else if d == 5 {
        '5'
    } else if d == 6 {
        '6'
    } else if d == 7 {
        '7'
    } else if d == 8 {
        '8'
    } else {
        '9'
    }
}

/// Appends the decimal digits of `n`.
pub fn push_dec(out: &mut String, n: u32)
    ensures
        final(out)@ == old(out)@ + dec_str(n as int),
    decreases n,
{
    if n >= 10 {
        push_dec(out, n / 10);
        push_char(out, digit_char_exec(n % 10));
        proof {
            assert((old(out)@ + dec_str(n as int / 10)).push(digit_char(n as int % 10)) =~= old(
                out,
            )@ + dec_str(n as int));
        }
    } else {
        push_char(out, digit_char_exec(n));
        proof {
            assert(old(out)@.push(digit_char(n as int)) =~= old(out)@ + dec_str(n as int));
        }
    }
}

/// Parses an all-digit string into its value, refusing anything else or
/// anything beyond the accepted range.
pub fn parse_digits(s: &str) -> (r: Option<u32>)
    ensures
        (match r {
            Some(v) => seq_num_of(s@) == Some(v as int),
            None => seq_num_of(s@) is None,
        }),
{
    let len = s.unicode_len();
    if len == 0 {
        return None;
    }
    let mut acc: u32 = 0;
    let mut i: usize = 0;
    proof {
        assert(s@.take(0) =~= Seq::<char>::empty());
    }
    while i < len
        invariant
            i <= len,
            0 < len == s@.len(),
            forall|t: int| 0 <= t < i ==> is_digit(#[trigger] s@[t]),
            acc as int == dec_value(s@.take(i as int)),
            acc <= 2147483647,
        decreases len - i,
    {
        let c = s.get_char(i);
        let u = c as u32;
        if u < 48 || u > 57 {
            proof {
                assert(!is_digit(s@[i as int]));
                assert(!is_digits(s@));
            }
            return None;
        }
        let d = u - 48;
        proof {
            assert(s@.take(i as int + 1).drop_last() =~= s@.take(i as int));
            assert(s@.take(i as int + 1).last() == s@[i as int]);
        }
        if acc > (2147483647 - d) / 10 {
            proof {
                let di = d as int;
                let ai = acc as int;
                assert(ai * 10 + di > 2147483647) by (nonlinear_arith)
                    requires
                        ai > (2147483647 - di) / 10,
                        0 <= di,
                        di < 10,
                        ai >= 0,
                ;
                assert(dec_value(s@.take(i as int + 1)) > seq_limit());
                if is_digits(s@) {
                    lemma_dec_mono(s@, i as int + 1);
                }
            }
            return None;
        }
        acc = acc * 10 + d;
        i += 1;
    }
    proof {
        assert(s@.take(len as int) =~= s@);
        assert(is_digits(s@));
    }
    Some(acc)
}

// ---------------------------------------------------------------------
// Identifier derivation.
// ---------------------------------------------------------------------

/// Splitting at the last dash, as identifiers are taken apart.
pub open spec fn rsplit_dash(s: Seq<char>) -> Option<(Seq<char>, Seq<char>)>
    decreases s.len(),
{
    if s.len() == 0 {
        None
    } else if s.last() == '-' {
        Some((s.drop_last(), Seq::empty()))
    } else {
        match rsplit_dash(s.drop_last()) {
            None => None,
            Some(p) => Some((p.0, p.1.push(s.last()))),
        }
    }
}

pub proof fn lemma_rsplit_none(s: Seq<char>)
    requires
        forall|t: int| 0 <= t < s.len() ==> s[t] != '-',
    ensures
        rsplit_dash(s) is None,
    decreases s.len(),
{
    if s.len() > 0 {
        lemma_rsplit_none(s.drop_last());
    }
}

pub proof fn lemma_rsplit_at(s: Seq<char>, k: int)
    requires
        0 <= k < s.len(),
        s[k] == '-',
        forall|t: int| k < t < s.len() ==> s[t] != '-',
    ensures
        rsplit_dash(s) == Some((s.take(k), s.skip(k + 1))),
    decreases s.len(),
{
    if k == s.len() - 1 {
        assert(s.drop_last() =~= s.take(k));
        assert(s.skip(k + 1) =~= Seq::<char>::empty());
    } else {
        lemma_rsplit_at(s.drop_last(), k);
        assert(s.drop_last().take(k) =~= s.take(k));
        assert(s.drop_last().skip(k + 1).push(s.last()) =~= s.skip(k + 1));
    }
}

/// Splits an identifier at its last dash.
pub fn rsplit_dash_exec(s: &str) -> (r: Option<(String, String)>)
    ensures
        (match (r, rsplit_dash(s@)) {
            (Some(p), Some(ps)) => p.0@ == ps.0 && p.1@ == ps.1,
            (None, None) => true,
            _ => false,
        }),
{
    let len = s.unicode_len();
    let mut j: usize = len;
    while j > 0 && s.get_char(j - 1) != '-'
        invariant
            j <= len,
            len == s@.len(),
            forall|t: int| j <= t < len ==> s@[t] != '-',
        decreases j,
    {
        j -= 1;
    }
    if j == 0 {
        proof {
            lemma_rsplit_none(s@);
        }
        None
    } else {
        proof {
            lemma_rsplit_at(s@, j as int - 1);
        }
        let pre = s.substring_char(0, j - 1).to_owned();
        let suf = suffix_from(s, j);
        Some((pre, suf))
    }
}

/// What an existing identifier contributes to a date's sequence
/// numbering: its numeric suffix, when its prefix is that date.
pub open spec fn id_seq_num(id: Seq<char>, date: Seq<char>) -> Option<int> {
    match rsplit_dash(id) {
        None => None,
        Some(p) => if p.0 == date {
            seq_num_of(p.1)
        } else {
            None
        },
    }
}

/// The largest sequence number any of `ids` holds for `date`; zero when
/// none does.
pub open spec fn max_seq(ids: Seq<Seq<char>>, date: Seq<char>) -> int
    decreases ids.len(),
{
    if ids.len() == 0 {
        0
    } else {
        let m = max_seq(ids.drop_last(), date);
        match id_seq_num(ids.last(), date) {
            Some(v) => if v > m {
                v
            } else {
                m
            },
            None => m,
        }
    }
}

/// The identifier the engine hands out next for `date`.
pub open spec fn spec_next_id(ids: Seq<Seq<char>>, date: Seq<char>) -> Seq<char> {
    date + seq!['-'] + padded3(max_seq(ids, date) + 1)
}

pub proof fn lemma_max_seq_bounds(ids: Seq<Seq<char>>, date: Seq<char>)
    ensures
        0 <= max_seq(ids, date) <= seq_limit(),
    decreases ids.len(),
{
    if ids.len() > 0 {
        lemma_max_seq_bounds(ids.drop_last(), date);
    }
}

pub proof fn lemma_max_seq_ge(ids: Seq<Seq<char>>, date: Seq<char>, i: int)
    requires
        0 <= i < ids.len(),
        id_seq_num(ids[i], date) is Some,
    ensures
        id_seq_num(ids[i], date)->Some_0 <= max_seq(ids, date),
    decreases ids.len(),
{
    if i < ids.len() - 1 {
        lemma_max_seq_ge(ids.drop_last(), date, i);
        assert(ids.drop_last()[i] == ids[i]);
    }
}

/// The generated identifier itself parses back to the date and the
/// successor sequence number.
pub proof fn lemma_next_id_parses(ids: Seq<Seq<char>>, date: Seq<char>)
    requires
        max_seq(ids, date) < seq_limit(),
    ensures
        id_seq_num(spec_next_id(ids, date), date) == Some(max_seq(ids, date) + 1),
{
    let m = max_seq(ids, date);
    let next = spec_next_id(ids, date);
    lemma_max_seq_bounds(ids, date);
    lemma_padded3(m + 1);
    let dl = date.len() as int;
    assert(next[dl] == '-');
    assert forall|t: int| dl < t < next.len() implies next[t] != '-' by {
        assert(next[t] == padded3(m + 1)[t - dl - 1]);
        assert(is_digit(padded3(m + 1)[t - dl - 1]));
    }
    lemma_rsplit_at(next, dl);
    assert(next.take(dl) =~= date);
    assert(next.skip(dl + 1) =~= padded3(m + 1));
}

/// Identifier uniqueness: the next identifier for a date is never one of
/// the identifiers it was derived from.
pub proof fn lemma_next_id_fresh(ids: Seq<Seq<char>>, date: Seq<char>)
    requires
        max_seq(ids, date) < seq_limit(),
    ensures
        forall|i: int| 0 <= i < ids.len() ==> ids[i] != spec_next_id(ids, date),
{
    let m = max_seq(ids, date);
    let next = spec_next_id(ids, date);
    lemma_next_id_parses(ids, date);
    assert forall|i: int| 0 <= i < ids.len() implies ids[i] != next by {
        if ids[i] == next {
            lemma_max_seq_ge(ids, date, i);
        }
    }
}

/// Sequence numbers only grow: once the identifier generated from one
/// set is live in a larger set, the next number handed out for that date
/// is strictly greater.
pub proof fn lemma_next_id_seq_increases(
    ids1: Seq<Seq<char>>,
    ids2: Seq<Seq<char>>,
    date: Seq<char>,
)
    requires
        max_seq(ids1, date) < seq_limit(),
        ids2.contains(spec_next_id(ids1, date)),
    ensures
        max_seq(ids2, date) + 1 > max_seq(ids1, date) + 1,
{
    lemma_next_id_parses(ids1, date);
    let i = choose|i: int| 0 <= i < ids2.len() && ids2[i] == spec_next_id(ids1, date);
    lemma_max_seq_ge(ids2, date, i);
}

/// Derives the next identifier for `date` from the live identifiers.
pub fn next_id(existing_ids: &Vec<String>, date: &str) -> (r: String)
    ensures
        r@ == spec_next_id(existing_ids.deep_view(), date@),
{
    let ghost dv = existing_ids.deep_view();
    let mut maxv: u32 = 0;
    let mut i: usize = 0;
    proof {
        assert(dv.take(0) =~= Seq::<Seq<char>>::empty());
    }
    while i < existing_ids.len()
        invariant
            i <= existing_ids.len(),
            dv == existing_ids.deep_view(),
            maxv as int == max_seq(dv.take(i as int), date@),
            maxv <= 2147483647,
        decreases existing_ids.len() - i,
    {
        proof {
            assert(dv.take(i as int + 1).drop_last() =~= dv.take(i as int));
            assert(dv.take(i as int + 1).last() == dv[i as int]);
        }
        match rsplit_dash_exec(existing_ids[i].as_str()) {
            None => {},
            Some(p) => {
                if str_eq(p.0.as_str(), date) {
                    match parse_digits(p.1.as_str()) {
                        Some(v) => {
                            if v > maxv {
                                maxv = v;
                            }
                        },
                        None => {},
                    }
                }
            },
        }
        i += 1;
    }
    proof {
        assert(dv.take(existing_ids.len() as int) =~= dv);
    }
    let mut out = date.to_owned();
    push_char(&mut out, '-');
    let n = maxv + 1;
    if n < 10 {
        push_char(&mut out, '0');
        push_char(&mut out, '0');
    } else if n < 100 {
        push_char(&mut out, '0');
    }
    push_dec(&mut out, n);
    proof {
        if n < 10 {
            assert(out@ =~= date@ + seq!['-'] + (seq!['0', '0'] + dec_str(n as int)));
        } else if n < 100 {
            assert(out@ =~= date@ + seq!['-'] + (seq!['0'] + dec_str(n as int)));
        } else {
            assert(out@ =~= date@ + seq!['-'] + dec_str(n as int));
        }
    }
    out
}

// ---------------------------------------------------------------------
// File locations.
// ---------------------------------------------------------------------

/// The date half of a timestamp: everything before the first 'T'.
pub open spec fn first_t(s: Seq<char>) -> int
    decreases s.len(),
{
    if s.len() == 0 {
        0
    } else if s[0] == 'T' {
        0
    } else {
        1 + first_t(s.skip(1))
    }
}

pub open spec fn date_of(s: Seq<char>) -> Seq<char> {
    s.take(first_t(s))
}

pub proof fn lemma_first_t_bounds(s: Seq<char>)
    ensures
        0 <= first_t(s) <= s.len(),
    decreases s.len(),
{
    if s.len() > 0 && s[0] != 'T' {
        lemma_first_t_bounds(s.skip(1));
    }
}

/// Extracts the date prefix of a timestamp.
pub fn date_prefix(s: &str) -> (r: String)
    ensures
        r@ == date_of(s@),
{
    let len = s.unicode_len();
    let mut i: usize = 0;
    proof {
        assert(s@.skip(0) =~= s@);
        lemma_first_t_bounds(s@);
    }
    while i < len && s.get_char(i) != 'T'
        invariant
            i <= len,
            len == s@.len(),
            first_t(s@) == i as int + first_t(s@.skip(i as int)),
            first_t(s@) <= len,
        decreases len - i,
    {
        proof {
            assert(s@.skip(i as int)[0] == s@[i as int]);
            assert(s@.skip(i as int).skip(1) =~= s@.skip(i as int + 1));
            lemma_first_t_bounds(s@.skip(i as int + 1));
        }
        i += 1;
    }
    proof {
        if i < len {
            assert(s@.skip(i as int)[0] == 'T');
        } else {
            assert(s@.skip(i as int).len() == 0);
        }
        assert(first_t(s@) == i as int);
    }
    s.substring_char(0, i).to_owned()
}

pub open spec fn notes_dir() -> Seq<char> {
    seq!['n', 'o', 't', 'e', 's', '/']
}

pub open spec fn md_ext() -> Seq<char> {
    seq!['.', 'm', 'd']
}

/// The location a note with the given date and slug lives at.
pub open spec fn loc_of(date: Seq<char>, slug: Seq<char>) -> Seq<char> {
    notes_dir() + date + seq!['-'] + slug + md_ext()
}

/// Builds a note's file location from its date and slug.
pub fn file_location(date: &str, slug: &str) -> (r: String)
    ensures
        r@ == loc_of(date@, slug@),
{
    proof {
        reveal_strlit("notes/");
        reveal_strlit(".md");
        assert("notes/"@ =~= notes_dir());
        assert(".md"@ =~= md_ext());
    }
    let mut out = "notes/".to_owned();
    out.append(date);
    push_char(&mut out, '-');
    out.append(slug);
    out.append(".md");
    proof {
        assert(out@ =~= loc_of(date@, slug@));
    }
    out
}

/// A freshly derived identifier holds no newline: its date half comes
/// from the timestamp and its tail is digits.
pub proof fn lemma_next_id_no_nl(ids: Seq<Seq<char>>, date: Seq<char>, now: Seq<char>)
    requires
        date == date_of(now),
        seg_has_no_nl(now),
    ensures
        seg_has_no_nl(spec_next_id(ids, date)),
{
    lemma_max_seq_bounds(ids, date);
    let m = max_seq(ids, date);
    lemma_padded3(m + 1);
    lemma_first_t_bounds(now);
    let next = spec_next_id(ids, date);
    assert forall|u: int| 0 <= u < next.len() implies next[u] != '\n' by {
        if u < date.len() {
            assert(next[u] == now[u]);
        } else if u == date.len() {
            assert(next[u] == '-');
        } else {
            assert(next[u] == padded3(m + 1)[u - date.len() - 1]);
            assert(is_digit(padded3(m + 1)[u - date.len() - 1]));
        }
    }
}

} // verus!
